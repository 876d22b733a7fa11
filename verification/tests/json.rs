use contextmink::json::{
    is_json_identifier, json_search_text, json_text, json_value_type_name, value_summary,
    JsonValue,
};
use contextmink::json_find::{json_find, json_find_filters, JsonFindFault};
use contextmink::json_input::{
    is_blank_line, parse_json_bytes, parse_json_or_jsonl, parse_json_text, parse_jsonl_text,
    read_bounded_json_text, read_bounded_physical_line, InputFormat, JsonFault, MAX_JSON_DEPTH,
};
use contextmink::json_pointer::{
    decode_json_pointer_token, encode_json_pointer_token, json_pointer_lookup, parse_pointer,
    PointerFault,
};
use contextmink::json_select::{
    json_select_request, record_scope, select_from_rows, select_record_rows, select_rows,
    JsonSelectFault, JsonSelectRequest, RecordScope,
};

fn texts(list: &[&str]) -> Vec<String> {
    list.iter().map(|text| text.to_string()).collect()
}

fn read(text: &str) -> JsonValue {
    parse_json_text(text).unwrap()
}

#[test]
fn value_summary_reports_character_truncation() {
    let summary = value_summary(&json_text("abcdefghijklmnopqrstuvwxyz"), 10);
    assert_eq!(summary.text, "\"abcdef...");
    assert!(summary.truncated);

    let summary = value_summary(&read("42"), 10);
    assert_eq!(summary.text, "42");
    assert!(!summary.truncated);
}

#[test]
fn json_search_text_is_not_bounded_by_rendering_limits() {
    let value = read(r#"{"message": "prefix-value-after-the-render-cap"}"#);
    assert!(json_search_text(&value).contains("value-after-the-render-cap"));
}

#[test]
fn json_identifier_filter_matches_plain_keys_only() {
    assert!(is_json_identifier("alpha_beta1"));
    assert!(!is_json_identifier("1alpha"));
    assert!(!is_json_identifier("alpha-beta"));
}

#[test]
fn value_summary_keeps_large_json_structural() {
    let items: Vec<String> = (0..120).map(|index| format!("{{\"index\": {index}}}")).collect();
    let large = read(&format!("{{\"items\": [{}], \"kind\": \"large\"}}", items.join(",")));
    let summary = value_summary(&large, 80);
    assert!(summary.text.starts_with("<object:2 keys sample="));
    assert!(!summary.text.contains("\"index\":119"));
    assert!(!summary.truncated);

    let small = read(r#"{"address": "0x7FF954", "function_count": 12}"#);
    let summary = value_summary(&small, 200);
    assert_eq!(
        summary.text,
        "{\"address\":\"0x7FF954\",\"function_count\":12}"
    );
    assert!(!summary.truncated);
}

#[test]
fn shape_mismatched_json_pointer_token_is_a_non_match() {
    let row = read(r#"{"v": [9]}"#);
    assert!(json_pointer_lookup(&row, "/v/x").unwrap().is_none());
}

#[test]
fn rejects_duplicate_object_keys_at_every_depth() {
    let error = parse_json_text(r#"{"outer":{"id":1,"id":2}}"#).unwrap_err();
    assert!(error
        .message("fixture.json")
        .contains("duplicate JSON object key \"id\""));
}

#[test]
fn preserves_integers_larger_than_u64() {
    let value = parse_json_text("184467440737095516160").unwrap();
    assert_eq!(value.to_compact(), "184467440737095516160");
}

#[test]
fn jsonl_requires_one_value_per_physical_line() {
    let error = parse_jsonl_text("{\n  \"id\": 1\n}\n{\"id\":2}\n").unwrap_err();
    assert!(error.message("fixture.jsonl").contains("physical line"));
}

#[test]
fn physical_line_reader_stops_at_the_record_bound() {
    let mut line = Vec::new();
    let mut failure = None;
    // Three bytes at a time, as a small buffer hands them out.
    for chunk in b"123456789\n".chunks(3) {
        match read_bounded_physical_line(chunk, &mut line, "fixture.jsonl", 1, 5) {
            Ok(read) => assert!(!read.complete),
            Err(message) => {
                failure = Some(message);
                break;
            }
        }
    }
    assert!(failure.unwrap().contains("--max-document-bytes 5"));
    assert!(line.len() <= 5);
}

#[test]
fn a_physical_line_ends_at_its_line_feed() {
    let mut line = Vec::new();
    let read = read_bounded_physical_line(b"ab\ncd", &mut line, "fixture.jsonl", 1, 5).unwrap();
    assert_eq!(read.consumed, 3);
    assert!(read.complete);
    assert_eq!(line, b"ab");
    assert!(is_blank_line(b" \t\n"));
    assert!(!is_blank_line(b" x\n"));
}

#[test]
fn documents_are_whole_or_line_by_line() {
    let (_, format) = parse_json_or_jsonl("{\"a\": 1}").unwrap();
    assert_eq!(format, InputFormat::Json);
    let (rows, format) = parse_json_or_jsonl("{\"a\": 1}\n{\"a\": 2}\n").unwrap();
    assert_eq!(format, InputFormat::Jsonl);
    assert_eq!(rows.to_compact(), "[{\"a\":1},{\"a\":2}]");
    assert!(parse_json_or_jsonl("{\n").is_err());
}

#[test]
fn documents_are_bounded_in_depth_and_bytes() {
    let deep = format!("{}{}", "[".repeat(MAX_JSON_DEPTH + 2), "]".repeat(MAX_JSON_DEPTH + 2));
    assert!(matches!(parse_json_bytes(deep.as_bytes()), Err(JsonFault::TooDeep)));
    assert!(matches!(parse_json_bytes(b"[1"), Err(_)));
    assert!(matches!(parse_json_bytes(b"{\"a\" 1}"), Err(JsonFault::ExpectedColon { .. })));
    assert!(read_bounded_json_text("a.json", 11, 10).is_some());
    assert!(read_bounded_json_text("a.json", 10, 10).is_none());
    assert!(read_bounded_json_text("a.json", 1, 0).is_some());
}

#[test]
fn pointer_tokens_read_back() {
    for key in ["", "plain", "a/b", "a~b", "~1", "é/~"] {
        let token = encode_json_pointer_token(key);
        assert!(!token.contains('/'));
        assert_eq!(decode_json_pointer_token(&token).unwrap(), key);
    }
    assert_eq!(parse_pointer("/a/b~1c").unwrap(), texts(&["a", "b/c"]));
    assert!(matches!(parse_pointer("a"), Err(PointerFault::NoSlash)));
    assert!(matches!(parse_pointer("/a~"), Err(PointerFault::OpenEscape)));
    assert!(matches!(parse_pointer("/a~2"), Err(PointerFault::BadEscape('2'))));
}

#[test]
fn matches_are_found_at_their_pointers() {
    let document = read(r#"{"a": {"name": "Ann"}, "rows": [{"name": "Bob"}, {"other": 1}]}"#);
    let filters =
        json_find_filters(texts(&["name"]), None, vec![], None, vec![], 10, 20).unwrap();
    let found = json_find(&document, &filters, 10, 20);
    assert_eq!(found.total, 2);
    assert_eq!(found.rows[0].0, "/a/name");
    assert_eq!(found.rows[1].0, "/rows/0/name");
    assert_eq!(found.rows[1].1, "\"Bob\"");
    for (pointer, _) in &found.rows {
        assert!(json_pointer_lookup(&document, pointer).unwrap().is_some());
    }
    let shown = json_find(&document, &filters, 1, 20);
    assert_eq!((shown.total, shown.rows.len()), (2, 1));
    let receipt = shown.receipt(None, "a.json", InputFormat::Json, 1, 20, true);
    assert!(receipt.output_truncated());

    let by_regex =
        json_find_filters(vec![], Some("^oth"), vec![], None, vec![], 10, 20).unwrap();
    assert_eq!(json_find(&document, &by_regex, 10, 20).rows[0].0, "/rows/1/other");
}

#[test]
fn a_search_needs_a_filter() {
    assert!(matches!(
        json_find_filters(vec![], None, vec![], None, vec![], 1, 1),
        Err(JsonFindFault::NoFilter)
    ));
    assert!(matches!(
        json_find_filters(texts(&["a"]), None, vec![], None, vec![], 0, 1),
        Err(JsonFindFault::NoMatches)
    ));
    assert!(matches!(
        json_find_filters(texts(&["a"]), None, vec![], None, vec![], 1, 0),
        Err(JsonFindFault::NoValueChars)
    ));
    assert!(matches!(
        json_find_filters(vec![], Some("("), vec![], None, vec![], 1, 1),
        Err(JsonFindFault::BadKeyRegex(_))
    ));
    assert!(matches!(
        json_find_filters(vec![], None, vec![], Some("("), vec![], 1, 1),
        Err(JsonFindFault::BadPointerRegex(_))
    ));
}

fn request(
    at: Option<&str>,
    entries: bool,
    fields: &[&str],
    exact: &[&str],
    contains: &[&str],
    show_rows: usize,
) -> Result<JsonSelectRequest, JsonSelectFault> {
    json_select_request(
        at.map(str::to_owned),
        entries,
        &texts(fields),
        false,
        &texts(exact),
        &texts(contains),
        show_rows,
        40,
    )
}

#[test]
fn rows_are_selected_by_their_fields() {
    let document = read(
        r#"{"rows": [{"id": 1, "name": "one"}, {"id": 2, "name": "two"}, {"id": 3, "name": "two"}]}"#,
    );
    let ask = request(Some("/rows"), false, &["id,name"], &["name=two"], &[], 1).unwrap();
    let rows = select_rows(&document, InputFormat::Json, &ask.at, false).unwrap();
    let selection = select_from_rows(rows, &ask);
    assert_eq!(selection.rows_scanned, 3);
    assert_eq!(selection.rows_matched, 2);
    assert_eq!(selection.kept.len(), 1);
    let receipt = selection.receipt(&ask, Some("demo"), "a.json", InputFormat::Json, true);
    assert!(receipt.output_truncated());
    assert_eq!(receipt.result.total, 2);
    assert_eq!(receipt.result.shown, 1);
    let lines = selection.lines(&ask, InputFormat::Json);
    assert!(lines.iter().any(|line| line.contains("two")));
    assert!(!lines.iter().any(|line| line.contains("one")));
}

#[test]
fn entries_become_rows() {
    let document = read(r#"{"a": {"n": 1}, "b": {"n": 2}}"#);
    let ask = request(None, true, &[], &[], &["n=2"], 5).unwrap();
    let rows = select_rows(&document, InputFormat::Json, &ask.at, true).unwrap();
    assert_eq!(rows.len(), 2);
    let selection = select_from_rows(rows, &ask);
    assert_eq!(selection.rows_matched, 1);
}

#[test]
fn bad_selections_are_refused() {
    assert!(matches!(request(None, false, &[], &[], &[], 0), Err(JsonSelectFault::NoRows)));
    assert!(matches!(
        request(None, false, &[], &["name"], &[], 1),
        Err(JsonSelectFault::NoEquals { .. })
    ));
    assert!(matches!(
        request(None, false, &[], &["=x"], &[], 1),
        Err(JsonSelectFault::NoField { .. })
    ));
    assert!(matches!(
        request(None, false, &["/a~9"], &[], &[], 1),
        Err(JsonSelectFault::BadSelector { .. })
    ));
    assert!(matches!(
        json_select_request(None, false, &texts(&["a"]), true, &[], &[], 1, 1),
        Err(JsonSelectFault::KeysWithFields)
    ));
    assert!(matches!(
        json_select_request(None, false, &[], false, &[], &[], 1, 0),
        Err(JsonSelectFault::NoValueChars)
    ));
    let document = read("[1]");
    assert!(matches!(
        select_rows(&document, InputFormat::Json, &Some("/x".to_owned()), false),
        Err(JsonSelectFault::AtMissing { .. })
    ));
    assert!(matches!(
        select_rows(&document, InputFormat::Json, &None, true),
        Err(JsonSelectFault::EntriesNeedObject)
    ));
}

#[test]
fn keys_are_counted_with_their_types() {
    let document = read(r#"{"rows": [{"id": 1, "name": null}, {"id": "x"}, 7]}"#);
    let at = Some("rows".to_owned());
    let ask = json_select_request(at, false, &[], true, &[], &[], 9, 40).unwrap();
    let rows = select_rows(&document, InputFormat::Json, &ask.at, false).unwrap();
    let selection = select_from_rows(rows, &ask);
    assert_eq!(selection.non_object_rows, 1);
    assert_eq!(selection.key_stats.keys, texts(&["id", "name"]));
    assert_eq!(selection.key_stats.stats[0].present, 2);
    assert_eq!(selection.key_stats.stats[1].non_null, 0);
    assert!(selection
        .key_lines(&ask, InputFormat::Json)
        .iter()
        .any(|line| line.contains("id")));
}

#[test]
fn texts_are_written_with_escapes() {
    assert_eq!(json_text("a\"b\n").to_compact(), "\"a\\\"b\\n\"");
    assert_eq!(json_value_type_name(&read("[]")), "array");
    assert_eq!(read("{\"b\":1,\"a\":[null,true]}").to_compact(), "{\"a\":[null,true],\"b\":1}");
}

#[test]
fn one_record_is_enough_for_a_selector_into_jsonl() {
    let records = r#"[{"a": [1, 2]}, {"a": {"x": 3}}, 7]"#;
    let document = read(records);
    for (at, entries) in [
        ("/0/a", false),
        ("/1/a", false),
        ("/1/a", true),
        ("/0/a", true),
        ("/2", false),
        ("/3/a", false),
        ("/1/b", false),
        ("/x", false),
        ("key", false),
    ] {
        let whole = select_rows(&document, InputFormat::Jsonl, &Some(at.to_owned()), entries);
        let needed = match (record_scope(&Some(at.to_owned())), &document) {
            (RecordScope::One(index), JsonValue::Array(items)) => items.get(index),
            _ => None,
        };
        let single = select_record_rows(needed, at, entries);
        match (whole, single) {
            (Ok(whole), Ok(single)) => {
                assert_eq!(whole.len(), single.len(), "{at}");
                for (one, other) in whole.iter().zip(&single) {
                    assert_eq!(one.value.to_compact(), other.value.to_compact());
                    assert_eq!(one.entry, other.entry);
                }
            }
            (Err(one), Err(other)) => assert_eq!(one.message(), other.message(), "{at}"),
            other => panic!("{at}: {other:?}"),
        }
    }
    assert_eq!(record_scope(&None), RecordScope::Every);
    assert_eq!(record_scope(&Some(String::new())), RecordScope::Every);
    assert_eq!(record_scope(&Some("key".to_owned())), RecordScope::Nothing);
}
