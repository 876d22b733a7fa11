//! What a JSON selection shows: its receipt and its lines.
use vstd::prelude::*;

use crate::json;
use crate::json::{
    add_item, add_member, json_array, json_count, json_object, json_optional_text, json_text,
    json_texts, json_value_type_name, value_summary, Json, JsonValue,
};
use crate::json_find;
use crate::json_input::InputFormat;
use crate::json_select;
use crate::json_select::{
    has_text, pick, JsonKeyStat, JsonSelectRequest, JsonSelection, KeyCount, Row, SelectedRow,
};
use crate::numbers;
use crate::numbers::count_text;
use crate::output;
use crate::output::{Receipt, ReceiptCap, ReceiptModel, ReceiptResult};
use crate::strings;
use crate::strings::join;

verus! {

/// The summary of a field of a row; a missing field shows as null.
pub open spec fn field_summary(row: Json, field: Seq<char>, max_chars: nat) -> Seq<char> {
    match json_select::picked(row, field) {
        Some(value) => output::clamped(json::summary(value), max_chars),
        None => "null"@,
    }
}

/// Whether something in what is shown of a row is cut.
pub open spec fn row_is_cut(row: Json, fields: Seq<Seq<char>>, max_chars: nat) -> bool {
    if fields.len() == 0 {
        json::summary(row).len() > max_chars
    } else {
        exists|i: int|
            0 <= i < fields.len() && (json_select::picked(row, #[trigger] fields[i]) matches Some(
                value,
            ) && json::summary(value).len() > max_chars)
    }
}

/// The members that show the first `n` fields of a row, each field once.
pub open spec fn field_members(
    row: Json,
    fields: Seq<Seq<char>>,
    max_chars: nat,
    n: nat,
) -> Seq<(Seq<char>, Json)>
    decreases n,
{
    if n == 0 || n > fields.len() {
        Seq::empty()
    } else {
        let before = field_members(row, fields, max_chars, (n - 1) as nat);
        let field = fields[n - 1];
        if fields.take(n - 1).contains(field) {
            before
        } else {
            before.push((field, Json::Text(field_summary(row, field, max_chars))))
        }
    }
}

/// The fields among the first `n` that a row has not, or has as null.
pub open spec fn absent_fields(row: Json, fields: Seq<Seq<char>>, null: bool, n: nat) -> Seq<
    Seq<char>,
>
    decreases n,
{
    if n == 0 || n > fields.len() {
        Seq::empty()
    } else {
        let before = absent_fields(row, fields, null, (n - 1) as nat);
        let value = json_select::picked(row, fields[n - 1]);
        let absent = if null {
            value is Some && value->0 is Null
        } else {
            value is None
        };
        if absent {
            before.push(fields[n - 1])
        } else {
            before
        }
    }
}

/// The JSON form of a row.
pub open spec fn row_json(index: nat, row: Row, fields: Seq<Seq<char>>, max_chars: nat) -> Json {
    let head = seq![("row"@, Json::Number(numbers::decimal(index)))];
    let entry = match row.entry {
        Some((key, pointer)) => seq![
            ("key"@, Json::Text(key)),
            ("pointer"@, Json::Text(pointer)),
            ("value_type"@, Json::Text(json::kind_name(row.value))),
            (
                "missing_fields"@,
                json::text_array(absent_fields(row.value, fields, false, fields.len())),
            ),
            ("null_fields"@, json::text_array(absent_fields(row.value, fields, true, fields.len()))),
        ],
        None => Seq::empty(),
    };
    let body = if fields.len() == 0 {
        ("value"@, Json::Text(output::clamped(json::summary(row.value), max_chars)))
    } else {
        ("fields"@, Json::Object(field_members(row.value, fields, max_chars, fields.len())))
    };
    Json::Object(head + entry + seq![body])
}

fn summarize_field(row: &JsonValue, field: &str, max_chars: usize) -> (text: String)
    ensures
        text@ == field_summary(row@, field@, max_chars as nat),
{
    match pick(row, field) {
        Some(value) => value_summary(value, max_chars).text,
        None => "null".to_owned(),
    }
}

fn list_absent(row: &JsonValue, fields: &[String], null: bool) -> (absent: Vec<String>)
    ensures
        strings::texts(absent@) == absent_fields(
            row@,
            strings::texts(fields@),
            null,
            fields@.len(),
        ),
{
    let ghost texts = strings::texts(fields@);
    let mut absent: Vec<String> = Vec::new();
    let mut i: usize = 0;
    assert(strings::texts(absent@) =~= Seq::empty());
    while i < fields.len()
        invariant
            i <= fields.len(),
            texts == strings::texts(fields@),
            strings::texts(absent@) == absent_fields(row@, texts, null, i as nat),
        decreases fields.len() - i,
    {
        assert(texts[i as int] == fields@[i as int]@);
        let is_absent = match pick(row, fields[i].as_str()) {
            Some(value) => null && value.is_null(),
            None => !null,
        };
        if is_absent {
            let ghost before = absent@;
            let field = fields[i].clone();
            absent.push(field);
            assert(strings::texts(absent@) =~= strings::texts(before).push(field@));
        }
        i += 1;
    }
    absent
}

/// The JSON form of a row: its fields, or its own summary where no field is
/// asked for; for an entry also its key, its pointer and its type.
pub fn json_select_row(
    index: usize,
    row: &SelectedRow,
    fields: &[String],
    max_value_chars: usize,
) -> (value: JsonValue)
    ensures
        value@ == row_json(
            index as nat,
            row@,
            strings::texts(fields@),
            max_value_chars as nat,
        ),
{
    let ghost texts = strings::texts(fields@);
    let mut members: Vec<(String, JsonValue)> = Vec::new();
    add_member(&mut members, "row", json_count(index));
    if let Some((key, pointer)) = &row.entry {
        add_member(&mut members, "key", json_text(key.as_str()));
        add_member(&mut members, "pointer", json_text(pointer.as_str()));
        add_member(&mut members, "value_type", json_text(json_value_type_name(&row.value)));
        let missing = list_absent(&row.value, fields, false);
        add_member(&mut members, "missing_fields", json_texts(&missing));
        let null = list_absent(&row.value, fields, true);
        add_member(&mut members, "null_fields", json_texts(&null));
    }
    if fields.len() == 0 {
        add_member(
            &mut members,
            "value",
            json_text(value_summary(&row.value, max_value_chars).text.as_str()),
        );
    } else {
        let mut shown: Vec<(String, JsonValue)> = Vec::new();
        let mut done: Vec<String> = Vec::new();
        let mut i: usize = 0;
        assert(json::member_models(shown@) =~= Seq::empty());
        while i < fields.len()
            invariant
                i <= fields.len(),
                texts == strings::texts(fields@),
                strings::texts(done@) == texts.take(i as int),
                json::member_models(shown@) == field_members(
                    row@.value,
                    texts,
                    max_value_chars as nat,
                    i as nat,
                ),
            decreases fields.len() - i,
        {
            assert(texts[i as int] == fields@[i as int]@);
            if !has_text(&done, fields[i].as_str()) {
                let summary = summarize_field(&row.value, fields[i].as_str(), max_value_chars);
                add_member(&mut shown, fields[i].as_str(), json_text(summary.as_str()));
            }
            let ghost before = done@;
            let field = fields[i].clone();
            done.push(field);
            assert(strings::texts(done@) =~= strings::texts(before).push(field@));
            assert(texts.take(i + 1) =~= texts.take(i as int).push(texts[i as int]));
            i += 1;
        }
        add_member(&mut members, "fields", json_object(shown));
    }
    let value = json_object(members);
    assert(value@->Object_0 =~= row_json(index as nat, row@, texts, max_value_chars as nat)->Object_0);
    value
}

/// The watched fields that were null or missing in every row, if there was a row.
pub open spec fn all_null(fields: Seq<Seq<char>>, seen: Seq<bool>, scanned: nat, n: nat) -> Seq<
    Seq<char>,
>
    decreases n,
{
    if n == 0 || n > fields.len() {
        Seq::empty()
    } else {
        let before = all_null(fields, seen, scanned, (n - 1) as nat);
        if scanned > 0 && !seen[n - 1] {
            before.push(fields[n - 1])
        } else {
            before
        }
    }
}

/// The label of a condition.
pub open spec fn predicate_label(predicate: json_select::Predicate) -> Seq<char> {
    predicate.field + (if predicate.contains {
        "~="@
    } else {
        "="@
    }) + predicate.expected
}

pub open spec fn predicate_labels(predicates: Seq<json_select::Predicate>) -> Seq<Seq<char>> {
    predicates.map_values(|predicate: json_select::Predicate| predicate_label(predicate))
}

fn label_predicates(predicates: &[json_select::WherePredicate]) -> (labels: Vec<String>)
    ensures
        strings::texts(labels@) == predicate_labels(json_select::predicate_models(predicates@)),
{
    let ghost models = json_select::predicate_models(predicates@);
    let ghost wanted = predicate_labels(models);
    let mut labels: Vec<String> = Vec::new();
    let mut i: usize = 0;
    assert(strings::texts(labels@) =~= wanted.take(0));
    while i < predicates.len()
        invariant
            i <= predicates.len(),
            models == json_select::predicate_models(predicates@),
            wanted == predicate_labels(models),
            strings::texts(labels@) == wanted.take(i as int),
        decreases predicates.len() - i,
    {
        assert(models[i as int] == predicates@[i as int]@);
        let ghost before = labels@;
        let sign = if predicates[i].contains {
            "~="
        } else {
            "="
        };
        let label = predicates[i].field.clone().concat(sign).concat(
            predicates[i].expected.as_str(),
        );
        labels.push(label);
        assert(strings::texts(labels@) =~= strings::texts(before).push(label@));
        assert(wanted.take(i + 1) =~= wanted.take(i as int).push(wanted[i as int]));
        i += 1;
    }
    assert(wanted.take(i as int) =~= wanted);
    labels
}

fn list_all_null(fields: &[String], seen: &Vec<bool>, scanned: usize) -> (list: Vec<String>)
    requires
        seen@.len() == fields@.len(),
    ensures
        strings::texts(list@) == all_null(
            strings::texts(fields@),
            seen@,
            scanned as nat,
            fields@.len(),
        ),
{
    let ghost texts = strings::texts(fields@);
    let mut list: Vec<String> = Vec::new();
    let mut i: usize = 0;
    assert(strings::texts(list@) =~= Seq::empty());
    while i < fields.len()
        invariant
            i <= fields.len(),
            seen@.len() == fields@.len(),
            texts == strings::texts(fields@),
            strings::texts(list@) == all_null(texts, seen@, scanned as nat, i as nat),
        decreases fields.len() - i,
    {
        assert(texts[i as int] == fields@[i as int]@);
        if scanned > 0 && !seen[i] {
            let ghost before = list@;
            let field = fields[i].clone();
            list.push(field);
            assert(strings::texts(list@) =~= strings::texts(before).push(field@));
        }
        i += 1;
    }
    list
}

/// The rows of a selection as JSON.
pub open spec fn rows_json(rows: Seq<Row>, fields: Seq<Seq<char>>, max_chars: nat) -> Json {
    Json::Array(Seq::new(rows.len(), |i: int| row_json(i as nat, rows[i], fields, max_chars)))
}

/// The types of a key's values in lexical order, among the first `n`.
pub open spec fn type_names(types: Seq<bool>, n: nat) -> Seq<Seq<char>>
    decreases n,
{
    let names = seq!["array"@, "bool"@, "null"@, "number"@, "object"@, "string"@];
    if n == 0 || n > types.len() || n > 6 {
        Seq::empty()
    } else if types[n - 1] {
        type_names(types, (n - 1) as nat).push(names[n - 1])
    } else {
        type_names(types, (n - 1) as nat)
    }
}

fn name_types(types: &[bool; 6]) -> (names: Vec<String>)
    ensures
        strings::texts(names@) == type_names(types@, 6),
{
    let mut names: Vec<String> = Vec::new();
    let mut i: usize = 0;
    assert(strings::texts(names@) =~= Seq::empty());
    while i < 6
        invariant
            i <= 6,
            types@.len() == 6,
            strings::texts(names@) == type_names(types@, i as nat),
        decreases 6 - i,
    {
        if types[i] {
            let ghost before = names@;
            let name = match i {
                0 => "array",
                1 => "bool",
                2 => "null",
                3 => "number",
                4 => "object",
                _ => "string",
            };
            let text = name.to_owned();
            names.push(text);
            assert(strings::texts(names@) =~= strings::texts(before).push(text@));
        }
        i += 1;
    }
    names
}

/// The JSON form of what is known of a key.
pub open spec fn key_json(key: Seq<char>, count: KeyCount) -> Json {
    Json::Object(
        seq![
            ("key"@, Json::Text(key)),
            ("present"@, Json::Number(numbers::decimal(count.present))),
            ("non_null"@, Json::Number(numbers::decimal(count.non_null))),
            ("types"@, json::text_array(type_names(count.types, 6))),
        ],
    )
}

fn key_value(key: &str, stat: &JsonKeyStat) -> (value: JsonValue)
    ensures
        value@ == key_json(key@, stat@),
{
    let types = name_types(&stat.types);
    let mut members: Vec<(String, JsonValue)> = Vec::new();
    add_member(&mut members, "key", json_text(key));
    add_member(&mut members, "present", json_count(stat.present));
    add_member(&mut members, "non_null", json_count(stat.non_null));
    add_member(&mut members, "types", json_texts(&types));
    let value = json_object(members);
    assert(value@->Object_0 =~= key_json(key@, stat@)->Object_0);
    value
}

/// Whether something in what is shown of the kept rows is cut.
pub open spec fn some_row_is_cut(rows: Seq<Row>, fields: Seq<Seq<char>>, max_chars: nat) -> bool {
    exists|i: int| 0 <= i < rows.len() && row_is_cut((#[trigger] rows[i]).value, fields, max_chars)
}

fn is_row_cut(row: &JsonValue, fields: &[String], max_chars: usize) -> (cut: bool)
    ensures
        cut == row_is_cut(row@, strings::texts(fields@), max_chars as nat),
{
    let ghost texts = strings::texts(fields@);
    if fields.len() == 0 {
        return value_summary(row, max_chars).truncated;
    }
    let mut i: usize = 0;
    while i < fields.len()
        invariant
            i <= fields.len(),
            texts == strings::texts(fields@),
            texts.len() > 0,
            forall|k: int|
                0 <= k < i ==> !(json_select::picked(row@, #[trigger] texts[k]) matches Some(value)
                    && json::summary(value).len() > max_chars),
        decreases fields.len() - i,
    {
        assert(texts[i as int] == fields@[i as int]@);
        if let Some(value) = pick(row, fields[i].as_str()) {
            if value_summary(value, max_chars).truncated {
                return true;
            }
        }
        i += 1;
    }
    false
}

impl JsonSelection {
    /// Whether the selection was made under the request.
    pub open spec fn fits(&self, request: &JsonSelectRequest) -> bool {
        &&& self.field_seen_non_null@.len() == request.audited@.len()
        &&& self.key_stats.keys@.len() == self.key_stats.stats@.len()
        &&& self.kept@.len() <= self.rows_matched
    }

    /// Whether something in what is shown of the rows is cut.
    pub fn values_truncated(&self, request: &JsonSelectRequest) -> (cut: bool)
        ensures
            cut == some_row_is_cut(
                self@.kept,
                strings::texts(request.fields@),
                request.show_value_chars as nat,
            ),
    {
        let ghost rows = self@.kept;
        let mut i: usize = 0;
        while i < self.kept.len()
            invariant
                i <= self.kept.len(),
                rows == json_select::row_models(self.kept@),
                forall|k: int|
                    0 <= k < i ==> !row_is_cut(
                        (#[trigger] rows[k]).value,
                        strings::texts(request.fields@),
                        request.show_value_chars as nat,
                    ),
            decreases self.kept.len() - i,
        {
            assert(rows[i as int] == self.kept@[i as int]@);
            if is_row_cut(&self.kept[i].value, &request.fields, request.show_value_chars) {
                return true;
            }
            i += 1;
        }
        false
    }

    /// The watched fields that were null or missing in every row.
    pub fn all_null_fields(&self, request: &JsonSelectRequest) -> (list: Vec<String>)
        requires
            self.fits(request),
        ensures
            strings::texts(list@) == all_null(
                strings::texts(request.audited@),
                self.field_seen_non_null@,
                self.rows_scanned as nat,
                request.audited@.len(),
            ),
    {
        list_all_null(&request.audited, &self.field_seen_non_null, self.rows_scanned)
    }

    /// The receipt of the selection; `with_rows` puts the rows into it.
    pub fn receipt(
        &self,
        request: &JsonSelectRequest,
        profile: Option<&str>,
        path: &str,
        format: InputFormat,
        with_rows: bool,
    ) -> (receipt: Receipt)
        requires
            self.fits(request),
        ensures
            receipt.model() == (ReceiptModel {
                command: "json-select"@,
                profile: strings::opt_text(profile),
                result: output::ResultCount {
                    unit: "rows"@,
                    total: self.rows_matched as nat,
                    total_is_lower_bound: false,
                    shown: self.kept@.len(),
                },
                caps: (if self.kept@.len() < self.rows_matched {
                    seq![output::output_cap("rows"@, request.show_rows as nat, "--show-rows"@)]
                } else {
                    Seq::empty()
                }) + (if some_row_is_cut(
                    self@.kept,
                    strings::texts(request.fields@),
                    request.show_value_chars as nat,
                ) {
                    seq![
                        output::output_cap(
                            "value_characters"@,
                            request.show_value_chars as nat,
                            "--show-value-chars"@,
                        ),
                    ]
                } else {
                    Seq::empty()
                }),
                fields: seq![
                    ("path"@, Json::Text(path@)),
                    (
                        "at"@,
                        match request.at {
                            Some(at) => Json::Text(at@),
                            None => Json::Null,
                        },
                    ),
                    ("input_format"@, Json::Text(json_find::format_name(format))),
                    ("entries"@, Json::Bool(request.entries)),
                    ("fields"@, json::text_array(strings::texts(request.fields@))),
                    (
                        "where"@,
                        json::text_array(
                            predicate_labels(json_select::predicate_models(request.predicates@)),
                        ),
                    ),
                    ("rows_scanned"@, Json::Number(numbers::decimal(self.rows_scanned as nat))),
                    (
                        "all_null_fields"@,
                        json::text_array(
                            all_null(
                                strings::texts(request.audited@),
                                self.field_seen_non_null@,
                                self.rows_scanned as nat,
                                request.audited@.len(),
                            ),
                        ),
                    ),
                ] + (if with_rows {
                    seq![
                        (
                            "rows"@,
                            rows_json(
                                self@.kept,
                                strings::texts(request.fields@),
                                request.show_value_chars as nat,
                            ),
                        ),
                    ]
                } else {
                    Seq::empty()
                }),
            }),
    {
        let mut receipt = Receipt::new(
            "json-select",
            profile,
            ReceiptResult::new("rows", self.rows_matched, false, self.kept.len()),
        );
        if self.kept.len() < self.rows_matched {
            receipt.add_cap(ReceiptCap::output("rows", Some(request.show_rows), "--show-rows"));
        }
        if self.values_truncated(request) {
            receipt.add_cap(
                ReceiptCap::output(
                    "value_characters",
                    Some(request.show_value_chars),
                    "--show-value-chars",
                ),
            );
        }
        let ghost caps = receipt.model().caps;
        proof {
            lemma_row_field_names();
        }
        receipt.insert("path", json_text(path));
        receipt.insert("at", json_optional_text(&request.at));
        receipt.insert("input_format", json_text(format.name()));
        receipt.insert("entries", JsonValue::Bool(request.entries));
        receipt.insert("fields", json_texts(&request.fields));
        let labels = label_predicates(&request.predicates);
        receipt.insert("where", json_texts(&labels));
        receipt.insert("rows_scanned", json_count(self.rows_scanned));
        let nulls = self.all_null_fields(request);
        receipt.insert("all_null_fields", json_texts(&nulls));
        if with_rows {
            let rows = self.rows_value(request);
            receipt.insert("rows", rows);
        }
        assert(receipt.model().caps =~= caps);
        receipt
    }

    fn rows_value(&self, request: &JsonSelectRequest) -> (value: JsonValue)
        ensures
            value@ == rows_json(
                self@.kept,
                strings::texts(request.fields@),
                request.show_value_chars as nat,
            ),
    {
        let ghost rows = self@.kept;
        let ghost wanted = rows_json(
            rows,
            strings::texts(request.fields@),
            request.show_value_chars as nat,
        )->Array_0;
        let mut items: Vec<JsonValue> = Vec::new();
        let mut i: usize = 0;
        assert(json::item_models(items@) =~= wanted.take(0));
        while i < self.kept.len()
            invariant
                i <= self.kept.len(),
                rows == json_select::row_models(self.kept@),
                wanted == rows_json(
                    rows,
                    strings::texts(request.fields@),
                    request.show_value_chars as nat,
                )->Array_0,
                json::item_models(items@) == wanted.take(i as int),
            decreases self.kept.len() - i,
        {
            assert(rows[i as int] == self.kept@[i as int]@);
            let row = json_select_row(
                i,
                &self.kept[i],
                &request.fields,
                request.show_value_chars,
            );
            add_item(&mut items, row);
            assert(wanted.take(i + 1) =~= wanted.take(i as int).push(wanted[i as int]));
            i += 1;
        }
        assert(wanted.take(i as int) =~= wanted);
        json_array(items)
    }

    /// How many keys are shown.
    pub open spec fn keys_shown(&self, request: &JsonSelectRequest) -> nat {
        numbers::least(self.key_stats.keys@.len(), request.show_rows as nat)
    }

    /// The receipt of a selection that reports the keys of the rows; `with_keys`
    /// puts them into it.
    pub fn render_json_select_keys(
        &self,
        request: &JsonSelectRequest,
        profile: Option<&str>,
        path: &str,
        format: InputFormat,
        with_keys: bool,
    ) -> (receipt: Receipt)
        requires
            self.fits(request),
        ensures
            receipt.model() == (ReceiptModel {
                command: "json-select"@,
                profile: strings::opt_text(profile),
                result: output::ResultCount {
                    unit: "keys"@,
                    total: self.key_stats.keys@.len(),
                    total_is_lower_bound: false,
                    shown: self.keys_shown(request),
                },
                caps: if self.keys_shown(request) < self.key_stats.keys@.len() {
                    seq![output::output_cap("keys"@, request.show_rows as nat, "--show-rows"@)]
                } else {
                    Seq::empty()
                },
                fields: seq![
                    ("path"@, Json::Text(path@)),
                    (
                        "at"@,
                        match request.at {
                            Some(at) => Json::Text(at@),
                            None => Json::Null,
                        },
                    ),
                    ("input_format"@, Json::Text(json_find::format_name(format))),
                    ("keys_mode"@, Json::Bool(true)),
                    ("rows_scanned"@, Json::Number(numbers::decimal(self.rows_scanned as nat))),
                    ("rows_matching"@, Json::Number(numbers::decimal(self.rows_matched as nat))),
                    (
                        "non_object_rows"@,
                        Json::Number(numbers::decimal(self.non_object_rows as nat)),
                    ),
                    (
                        "all_null_fields"@,
                        json::text_array(
                            all_null(
                                strings::texts(request.audited@),
                                self.field_seen_non_null@,
                                self.rows_scanned as nat,
                                request.audited@.len(),
                            ),
                        ),
                    ),
                ] + (if with_keys {
                    seq![
                        (
                            "keys"@,
                            Json::Array(
                                Seq::new(
                                    self.keys_shown(request),
                                    |i: int|
                                        key_json(self@.table.keys[i], self@.table.counts[i]),
                                ),
                            ),
                        ),
                    ]
                } else {
                    Seq::empty()
                }),
            }),
    {
        let total = self.key_stats.keys.len();
        let shown = if total <= request.show_rows {
            total
        } else {
            request.show_rows
        };
        let mut receipt = Receipt::new(
            "json-select",
            profile,
            ReceiptResult::new("keys", total, false, shown),
        );
        if shown < total {
            receipt.add_cap(ReceiptCap::output("keys", Some(request.show_rows), "--show-rows"));
        }
        let ghost caps = receipt.model().caps;
        proof {
            lemma_key_field_names();
        }
        receipt.insert("path", json_text(path));
        receipt.insert("at", json_optional_text(&request.at));
        receipt.insert("input_format", json_text(format.name()));
        receipt.insert("keys_mode", JsonValue::Bool(true));
        receipt.insert("rows_scanned", json_count(self.rows_scanned));
        receipt.insert("rows_matching", json_count(self.rows_matched));
        receipt.insert("non_object_rows", json_count(self.non_object_rows));
        let nulls = self.all_null_fields(request);
        receipt.insert("all_null_fields", json_texts(&nulls));
        if with_keys {
            let ghost table = self@.table;
            let ghost wanted = Seq::new(
                shown as nat,
                |i: int| key_json(table.keys[i], table.counts[i]),
            );
            let mut items: Vec<JsonValue> = Vec::new();
            let mut i: usize = 0;
            assert(json::item_models(items@) =~= wanted.take(0));
            while i < shown
                invariant
                    i <= shown <= self.key_stats.keys.len(),
                    self.key_stats.keys@.len() == self.key_stats.stats@.len(),
                    table == self@.table,
                    wanted == Seq::new(
                        shown as nat,
                        |i: int| key_json(table.keys[i], table.counts[i]),
                    ),
                    json::item_models(items@) == wanted.take(i as int),
                decreases shown - i,
            {
                assert(table.keys[i as int] == self.key_stats.keys@[i as int]@);
                assert(table.counts[i as int] == self.key_stats.stats@[i as int]@);
                let row = key_value(
                    self.key_stats.keys[i].as_str(),
                    &self.key_stats.stats[i],
                );
                add_item(&mut items, row);
                assert(wanted.take(i + 1) =~= wanted.take(i as int).push(wanted[i as int]));
                i += 1;
            }
            assert(wanted.take(i as int) =~= wanted);
            receipt.insert("keys", json_array(items));
        }
        assert(receipt.model().caps =~= caps);
        receipt
    }
}

/// The field names differ from each other and from the receipt's own.
proof fn lemma_row_field_names()
    ensures
        !output::is_reserved("path"@),
        !output::is_reserved("at"@),
        !output::is_reserved("input_format"@),
        !output::is_reserved("entries"@),
        !output::is_reserved("fields"@),
        !output::is_reserved("where"@),
        !output::is_reserved("rows_scanned"@),
        !output::is_reserved("all_null_fields"@),
        !output::is_reserved("rows"@),
        "path"@ != "at"@,
        "path"@ != "input_format"@,
        "path"@ != "entries"@,
        "path"@ != "fields"@,
        "path"@ != "where"@,
        "path"@ != "rows_scanned"@,
        "path"@ != "all_null_fields"@,
        "path"@ != "rows"@,
        "at"@ != "input_format"@,
        "at"@ != "entries"@,
        "at"@ != "fields"@,
        "at"@ != "where"@,
        "at"@ != "rows_scanned"@,
        "at"@ != "all_null_fields"@,
        "at"@ != "rows"@,
        "input_format"@ != "entries"@,
        "input_format"@ != "fields"@,
        "input_format"@ != "where"@,
        "input_format"@ != "rows_scanned"@,
        "input_format"@ != "all_null_fields"@,
        "input_format"@ != "rows"@,
        "entries"@ != "fields"@,
        "entries"@ != "where"@,
        "entries"@ != "rows_scanned"@,
        "entries"@ != "all_null_fields"@,
        "entries"@ != "rows"@,
        "fields"@ != "where"@,
        "fields"@ != "rows_scanned"@,
        "fields"@ != "all_null_fields"@,
        "fields"@ != "rows"@,
        "where"@ != "rows_scanned"@,
        "where"@ != "all_null_fields"@,
        "where"@ != "rows"@,
        "rows_scanned"@ != "all_null_fields"@,
        "rows_scanned"@ != "rows"@,
        "all_null_fields"@ != "rows"@,
{
    reveal_strlit("schema");
    reveal_strlit("tool");
    reveal_strlit("command");
    reveal_strlit("profile");
    reveal_strlit("duration_ms");
    reveal_strlit("scope_complete");
    reveal_strlit("output_truncated");
    reveal_strlit("complete");
    reveal_strlit("caps");
    reveal_strlit("result");
    reveal_strlit("output_cap_arguments");
    reveal_strlit("path");
    reveal_strlit("at");
    reveal_strlit("input_format");
    reveal_strlit("entries");
    reveal_strlit("fields");
    reveal_strlit("where");
    reveal_strlit("rows_scanned");
    reveal_strlit("all_null_fields");
    reveal_strlit("rows");
    assert("all_null_fields"@.len() == 15);
    assert("at"@.len() == 2);
    assert("caps"@.len() == 4);
    assert("caps"@[0] == 'c');
    assert("command"@.len() == 7);
    assert("command"@[0] == 'c');
    assert("complete"@.len() == 8);
    assert("duration_ms"@.len() == 11);
    assert("entries"@.len() == 7);
    assert("entries"@[0] == 'e');
    assert("fields"@.len() == 6);
    assert("fields"@[0] == 'f');
    assert("input_format"@.len() == 12);
    assert("input_format"@[0] == 'i');
    assert("output_cap_arguments"@.len() == 20);
    assert("output_truncated"@.len() == 16);
    assert("path"@.len() == 4);
    assert("path"@[0] == 'p');
    assert("profile"@.len() == 7);
    assert("profile"@[0] == 'p');
    assert("result"@.len() == 6);
    assert("result"@[0] == 'r');
    assert("rows"@.len() == 4);
    assert("rows"@[0] == 'r');
    assert("rows_scanned"@.len() == 12);
    assert("rows_scanned"@[0] == 'r');
    assert("schema"@.len() == 6);
    assert("schema"@[0] == 's');
    assert("scope_complete"@.len() == 14);
    assert("tool"@.len() == 4);
    assert("tool"@[0] == 't');
    assert("where"@.len() == 5);
}

/// The field names differ from each other and from the receipt's own.
proof fn lemma_key_field_names()
    ensures
        !output::is_reserved("path"@),
        !output::is_reserved("at"@),
        !output::is_reserved("input_format"@),
        !output::is_reserved("keys_mode"@),
        !output::is_reserved("rows_scanned"@),
        !output::is_reserved("rows_matching"@),
        !output::is_reserved("non_object_rows"@),
        !output::is_reserved("all_null_fields"@),
        !output::is_reserved("keys"@),
        "path"@ != "at"@,
        "path"@ != "input_format"@,
        "path"@ != "keys_mode"@,
        "path"@ != "rows_scanned"@,
        "path"@ != "rows_matching"@,
        "path"@ != "non_object_rows"@,
        "path"@ != "all_null_fields"@,
        "path"@ != "keys"@,
        "at"@ != "input_format"@,
        "at"@ != "keys_mode"@,
        "at"@ != "rows_scanned"@,
        "at"@ != "rows_matching"@,
        "at"@ != "non_object_rows"@,
        "at"@ != "all_null_fields"@,
        "at"@ != "keys"@,
        "input_format"@ != "keys_mode"@,
        "input_format"@ != "rows_scanned"@,
        "input_format"@ != "rows_matching"@,
        "input_format"@ != "non_object_rows"@,
        "input_format"@ != "all_null_fields"@,
        "input_format"@ != "keys"@,
        "keys_mode"@ != "rows_scanned"@,
        "keys_mode"@ != "rows_matching"@,
        "keys_mode"@ != "non_object_rows"@,
        "keys_mode"@ != "all_null_fields"@,
        "keys_mode"@ != "keys"@,
        "rows_scanned"@ != "rows_matching"@,
        "rows_scanned"@ != "non_object_rows"@,
        "rows_scanned"@ != "all_null_fields"@,
        "rows_scanned"@ != "keys"@,
        "rows_matching"@ != "non_object_rows"@,
        "rows_matching"@ != "all_null_fields"@,
        "rows_matching"@ != "keys"@,
        "non_object_rows"@ != "all_null_fields"@,
        "non_object_rows"@ != "keys"@,
        "all_null_fields"@ != "keys"@,
{
    reveal_strlit("schema");
    reveal_strlit("tool");
    reveal_strlit("command");
    reveal_strlit("profile");
    reveal_strlit("duration_ms");
    reveal_strlit("scope_complete");
    reveal_strlit("output_truncated");
    reveal_strlit("complete");
    reveal_strlit("caps");
    reveal_strlit("result");
    reveal_strlit("output_cap_arguments");
    reveal_strlit("path");
    reveal_strlit("at");
    reveal_strlit("input_format");
    reveal_strlit("keys_mode");
    reveal_strlit("rows_scanned");
    reveal_strlit("rows_matching");
    reveal_strlit("non_object_rows");
    reveal_strlit("all_null_fields");
    reveal_strlit("keys");
    assert("all_null_fields"@.len() == 15);
    assert("all_null_fields"@[0] == 'a');
    assert("at"@.len() == 2);
    assert("caps"@.len() == 4);
    assert("caps"@[0] == 'c');
    assert("command"@.len() == 7);
    assert("complete"@.len() == 8);
    assert("duration_ms"@.len() == 11);
    assert("input_format"@.len() == 12);
    assert("input_format"@[0] == 'i');
    assert("keys"@.len() == 4);
    assert("keys"@[0] == 'k');
    assert("keys_mode"@.len() == 9);
    assert("non_object_rows"@.len() == 15);
    assert("non_object_rows"@[0] == 'n');
    assert("output_cap_arguments"@.len() == 20);
    assert("output_truncated"@.len() == 16);
    assert("path"@.len() == 4);
    assert("path"@[0] == 'p');
    assert("profile"@.len() == 7);
    assert("result"@.len() == 6);
    assert("rows_matching"@.len() == 13);
    assert("rows_scanned"@.len() == 12);
    assert("rows_scanned"@[0] == 'r');
    assert("schema"@.len() == 6);
    assert("scope_complete"@.len() == 14);
    assert("tool"@.len() == 4);
    assert("tool"@[0] == 't');
}

/// Where the rows come from, as the lines name it.
pub open spec fn source_name(at: Option<Seq<char>>, format: InputFormat) -> Seq<char> {
    match at {
        Some(at) => at,
        None => match format {
            InputFormat::Jsonl => "jsonl"@,
            InputFormat::Json => "document"@,
        },
    }
}

fn name_source(at: &Option<String>, format: InputFormat) -> (name: String)
    ensures
        name@ == source_name(json_select::optional_text(*at), format),
{
    match at {
        Some(at) => at.clone(),
        None => match format {
            InputFormat::Jsonl => "jsonl".to_owned(),
            InputFormat::Json => "document".to_owned(),
        },
    }
}

/// The line that shows a row.
pub open spec fn row_line(index: nat, row: Row, fields: Seq<Seq<char>>, max_chars: nat) -> Seq<char> {
    numbers::decimal(index) + ": "@ + (match row.entry {
        Some((key, pointer)) => pointer + " "@,
        None => Seq::empty(),
    }) + (if fields.len() == 0 {
        output::clamped(json::summary(row.value), max_chars)
    } else {
        strings::join_texts(
            fields.map_values(
                |field: Seq<char>| field + "="@ + field_summary(row.value, field, max_chars),
            ),
            " "@,
        )
    })
}

fn render_row(index: usize, row: &SelectedRow, fields: &[String], max_chars: usize) -> (line: String)
    ensures
        line@ == row_line(index as nat, row@, strings::texts(fields@), max_chars as nat),
{
    let ghost texts = strings::texts(fields@);
    let mut line = count_text(index).concat(": ");
    if let Some((key, pointer)) = &row.entry {
        line.append(pointer.as_str());
        line.append(" ");
    } else {
        assert(line@ + Seq::<char>::empty() =~= line@);
    }
    if fields.len() == 0 {
        line.append(value_summary(&row.value, max_chars).text.as_str());
    } else {
        let ghost wanted = texts.map_values(
            |field: Seq<char>| field + "="@ + field_summary(row@.value, field, max_chars as nat),
        );
        let mut parts: Vec<String> = Vec::new();
        let mut i: usize = 0;
        assert(strings::texts(parts@) =~= wanted.take(0));
        while i < fields.len()
            invariant
                i <= fields.len(),
                texts == strings::texts(fields@),
                wanted == texts.map_values(
                    |field: Seq<char>|
                        field + "="@ + field_summary(row@.value, field, max_chars as nat),
                ),
                strings::texts(parts@) == wanted.take(i as int),
            decreases fields.len() - i,
        {
            assert(texts[i as int] == fields@[i as int]@);
            let ghost before = parts@;
            let part = fields[i].clone().concat("=").concat(
                summarize_field(&row.value, fields[i].as_str(), max_chars).as_str(),
            );
            parts.push(part);
            assert(strings::texts(parts@) =~= strings::texts(before).push(part@));
            assert(wanted.take(i + 1) =~= wanted.take(i as int).push(wanted[i as int]));
            i += 1;
        }
        assert(wanted.take(i as int) =~= wanted);
        line.append(join(&parts, " ").as_str());
    }
    line
}

pub open spec fn header_line(request: JsonSelectRequest, format: InputFormat) -> Seq<char> {
    let fields = strings::texts(request.fields@);
    let labels = predicate_labels(json_select::predicate_models(request.predicates@));
    "[contextmink] json-select source="@ + source_name(
        json_select::optional_text(request.at),
        format,
    ) + (if fields.len() > 0 {
        " fields="@ + strings::join_texts(fields, ","@)
    } else {
        Seq::empty()
    }) + (if labels.len() > 0 {
        " where="@ + strings::join_texts(labels, ","@)
    } else {
        Seq::empty()
    })
}

pub open spec fn null_warning(fields: Seq<Seq<char>>, scanned: nat) -> Seq<Seq<char>> {
    if fields.len() > 0 {
        seq![
            "[contextmink] warning: field(s) "@ + strings::join_texts(fields, ", "@)
                + " were null or missing in all "@ + numbers::decimal(scanned)
                + " scanned row(s); check the field selector against the document shape."@,
        ]
    } else {
        Seq::empty()
    }
}

fn push_line(lines: &mut Vec<String>, line: String)
    ensures
        strings::texts(final(lines)@) == strings::texts(old(lines)@).push(line@),
{
    let ghost before = lines@;
    lines.push(line);
    assert(strings::texts(lines@) =~= strings::texts(before).push(line@));
}

fn push_null_warning(lines: &mut Vec<String>, nulls: &[String], scanned: usize)
    ensures
        strings::texts(final(lines)@) == strings::texts(old(lines)@) + null_warning(
            strings::texts(nulls@),
            scanned as nat,
        ),
{
    assert(strings::texts(nulls@).len() == nulls@.len());
    if nulls.len() > 0 {
        push_line(
            lines,
            "[contextmink] warning: field(s) ".to_owned().concat(join(nulls, ", ").as_str()).concat(
                " were null or missing in all ",
            ).concat(count_text(scanned).as_str()).concat(
                " scanned row(s); check the field selector against the document shape.",
            ),
        );
    }
    assert(strings::texts(lines@) =~= strings::texts(old(lines)@) + null_warning(
        strings::texts(nulls@),
        scanned as nat,
    ));
}

/// The line that shows what is known of a key.
pub open spec fn key_line(index: nat, key: Seq<char>, count: KeyCount) -> Seq<char> {
    numbers::decimal(index) + ": "@ + key + " present="@ + numbers::decimal(count.present)
        + " non_null="@ + numbers::decimal(count.non_null) + " types="@ + strings::join_texts(
        type_names(count.types, 6),
        "|"@,
    )
}

impl JsonSelection {
    /// The lines of the selection.
    pub fn lines(&self, request: &JsonSelectRequest, format: InputFormat) -> (lines: Vec<String>)
        requires
            self.fits(request),
        ensures
            strings::texts(lines@) == seq![header_line(*request, format)] + (if self.kept@.len()
                == 0 {
                seq!["no_rows"@]
            } else {
                Seq::new(
                    self.kept@.len(),
                    |i: int|
                        row_line(
                            i as nat,
                            self@.kept[i],
                            strings::texts(request.fields@),
                            request.show_value_chars as nat,
                        ),
                )
            }) + null_warning(
                all_null(
                    strings::texts(request.audited@),
                    self.field_seen_non_null@,
                    self.rows_scanned as nat,
                    request.audited@.len(),
                ),
                self.rows_scanned as nat,
            ) + (if self.kept@.len() < self.rows_matched {
                seq![
                    "[contextmink] capped json rows at "@ + numbers::decimal(
                        request.show_rows as nat,
                    ) + "; narrow the selector."@,
                ]
            } else {
                Seq::empty()
            }),
    {
        let labels = label_predicates(&request.predicates);
        assert(strings::texts(request.fields@).len() == request.fields@.len());
        assert(strings::texts(labels@).len() == labels@.len());
        let mut header = "[contextmink] json-select source=".to_owned().concat(
            name_source(&request.at, format).as_str(),
        );
        if request.fields.len() > 0 {
            header.append(" fields=");
            header.append(join(&request.fields, ",").as_str());
        }
        if labels.len() > 0 {
            header.append(" where=");
            header.append(join(&labels, ",").as_str());
        }
        assert(header@ =~= header_line(*request, format));
        let mut lines: Vec<String> = Vec::new();
        push_line(&mut lines, header);
        let ghost head = strings::texts(lines@);
        assert(head =~= seq![header_line(*request, format)]);
        let ghost rows = self@.kept;
        let ghost wanted = Seq::new(
            self.kept@.len(),
            |i: int|
                row_line(
                    i as nat,
                    rows[i],
                    strings::texts(request.fields@),
                    request.show_value_chars as nat,
                ),
        );
        let mut i: usize = 0;
        assert(head + wanted.take(0) =~= head);
        while i < self.kept.len()
            invariant
                i <= self.kept.len(),
                rows == json_select::row_models(self.kept@),
                wanted == Seq::new(
                    self.kept@.len(),
                    |i: int|
                        row_line(
                            i as nat,
                            rows[i],
                            strings::texts(request.fields@),
                            request.show_value_chars as nat,
                        ),
                ),
                strings::texts(lines@) == head + wanted.take(i as int),
            decreases self.kept.len() - i,
        {
            assert(rows[i as int] == self.kept@[i as int]@);
            let line = render_row(i, &self.kept[i], &request.fields, request.show_value_chars);
            push_line(&mut lines, line);
            assert(head + wanted.take(i + 1) =~= (head + wanted.take(i as int)).push(
                wanted[i as int],
            ));
            i += 1;
        }
        assert(wanted.take(i as int) =~= wanted);
        if self.kept.len() == 0 {
            push_line(&mut lines, "no_rows".to_owned());
            assert(head + wanted =~= head);
        }
        let ghost body = strings::texts(lines@);
        assert(body =~= head + (if self.kept@.len() == 0 {
            seq!["no_rows"@]
        } else {
            wanted
        }));
        let nulls = self.all_null_fields(request);
        push_null_warning(&mut lines, &nulls, self.rows_scanned);
        let ghost warned = strings::texts(lines@);
        if self.kept.len() < self.rows_matched {
            push_line(
                &mut lines,
                "[contextmink] capped json rows at ".to_owned().concat(
                    count_text(request.show_rows).as_str(),
                ).concat("; narrow the selector."),
            );
        } else {
            assert(warned + Seq::<Seq<char>>::empty() =~= warned);
        }
        assert(strings::texts(lines@) =~= warned + (if self.kept@.len() < self.rows_matched {
            seq![
                "[contextmink] capped json rows at "@ + numbers::decimal(request.show_rows as nat)
                    + "; narrow the selector."@,
            ]
        } else {
            Seq::empty()
        }));
        lines
    }

    /// The lines of a selection that reports the keys of the rows.
    pub fn key_lines(&self, request: &JsonSelectRequest, format: InputFormat) -> (lines: Vec<
        String,
    >)
        requires
            self.fits(request),
        ensures
            strings::texts(lines@) == seq![
                "[contextmink] json-select keys source="@ + source_name(
                    json_select::optional_text(request.at),
                    format,
                ) + " rows="@ + numbers::decimal(self.rows_matched as nat),
            ] + (if self.keys_shown(request) == 0 {
                seq!["no_keys"@]
            } else {
                Seq::new(
                    self.keys_shown(request),
                    |i: int| key_line(i as nat, self@.table.keys[i], self@.table.counts[i]),
                )
            }) + (if self.non_object_rows > 0 {
                seq![
                    "[contextmink] "@ + numbers::decimal(self.non_object_rows as nat)
                        + " scanned row(s) were not JSON objects and carry no keys."@,
                ]
            } else {
                Seq::empty()
            }) + null_warning(
                all_null(
                    strings::texts(request.audited@),
                    self.field_seen_non_null@,
                    self.rows_scanned as nat,
                    request.audited@.len(),
                ),
                self.rows_scanned as nat,
            ) + (if self.keys_shown(request) < self.key_stats.keys@.len() {
                seq![
                    "[contextmink] capped keys at "@ + numbers::decimal(request.show_rows as nat)
                        + "; raise --show-rows or filter rows."@,
                ]
            } else {
                Seq::empty()
            }),
    {
        let total = self.key_stats.keys.len();
        let shown = if total <= request.show_rows {
            total
        } else {
            request.show_rows
        };
        let mut lines: Vec<String> = Vec::new();
        push_line(
            &mut lines,
            "[contextmink] json-select keys source=".to_owned().concat(
                name_source(&request.at, format).as_str(),
            ).concat(" rows=").concat(count_text(self.rows_matched).as_str()),
        );
        let ghost head = strings::texts(lines@);
        let ghost table = self@.table;
        let ghost wanted = Seq::new(
            shown as nat,
            |i: int| key_line(i as nat, table.keys[i], table.counts[i]),
        );
        let mut i: usize = 0;
        assert(head + wanted.take(0) =~= head);
        while i < shown
            invariant
                i <= shown <= self.key_stats.keys.len(),
                self.key_stats.keys@.len() == self.key_stats.stats@.len(),
                table == self@.table,
                wanted == Seq::new(
                    shown as nat,
                    |i: int| key_line(i as nat, table.keys[i], table.counts[i]),
                ),
                strings::texts(lines@) == head + wanted.take(i as int),
            decreases shown - i,
        {
            assert(table.keys[i as int] == self.key_stats.keys@[i as int]@);
            assert(table.counts[i as int] == self.key_stats.stats@[i as int]@);
            let stat = &self.key_stats.stats[i];
            let types = name_types(&stat.types);
            let line = count_text(i).concat(": ").concat(
                self.key_stats.keys[i].as_str(),
            ).concat(" present=").concat(count_text(stat.present).as_str()).concat(
                " non_null=",
            ).concat(count_text(stat.non_null).as_str()).concat(" types=").concat(
                join(&types, "|").as_str(),
            );
            push_line(&mut lines, line);
            assert(head + wanted.take(i + 1) =~= (head + wanted.take(i as int)).push(
                wanted[i as int],
            ));
            i += 1;
        }
        assert(wanted.take(i as int) =~= wanted);
        if shown == 0 {
            push_line(&mut lines, "no_keys".to_owned());
            assert(head + wanted =~= head);
        }
        let ghost body = strings::texts(lines@);
        assert(body =~= head + (if shown == 0 {
            seq!["no_keys"@]
        } else {
            wanted
        }));
        if self.non_object_rows > 0 {
            push_line(
                &mut lines,
                "[contextmink] ".to_owned().concat(
                    count_text(self.non_object_rows).as_str(),
                ).concat(" scanned row(s) were not JSON objects and carry no keys."),
            );
        } else {
            assert(body + Seq::<Seq<char>>::empty() =~= body);
        }
        let ghost noted = strings::texts(lines@);
        assert(noted =~= body + (if self.non_object_rows > 0 {
            seq![
                "[contextmink] "@ + numbers::decimal(self.non_object_rows as nat)
                    + " scanned row(s) were not JSON objects and carry no keys."@,
            ]
        } else {
            Seq::empty()
        }));
        let nulls = self.all_null_fields(request);
        push_null_warning(&mut lines, &nulls, self.rows_scanned);
        let ghost warned = strings::texts(lines@);
        if shown < total {
            push_line(
                &mut lines,
                "[contextmink] capped keys at ".to_owned().concat(
                    count_text(request.show_rows).as_str(),
                ).concat("; raise --show-rows or filter rows."),
            );
        }
        assert(strings::texts(lines@) =~= warned + (if shown < total {
            seq![
                "[contextmink] capped keys at "@ + numbers::decimal(request.show_rows as nat)
                    + "; raise --show-rows or filter rows."@,
            ]
        } else {
            Seq::empty()
        }));
        lines
    }
}

} // verus!
