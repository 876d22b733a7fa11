//! Projecting rows of a JSON document: which values are rows, which rows are
//! kept, and what is learnt of their shape.
use vstd::prelude::*;

use crate::json;
use crate::json::{Json, JsonValue};
use crate::json_input::InputFormat;
use crate::json_pointer;
use crate::json_pointer::{
    descend_from, json_select_field, member_pointer, parse_pointer, validate_selector,
    PointerFault,
};
use crate::numbers;
use crate::numbers::parse_usize;
use crate::ordering;
use crate::ordering::{find_place, sort_texts};
use crate::strings;
use crate::strings::{
    chars_of, contains, copy_strings, cut_string, debug_text, same_text, split_first, trim_of,
    CharClass,
};

verus! {

/// A `FIELD=VALUE` or `FIELD=TEXT` condition on rows.
#[derive(Debug)]
pub struct WherePredicate {
    pub field: String,
    pub expected: String,
    pub contains: bool,
}

/// The model of a condition.
pub struct Predicate {
    pub field: Seq<char>,
    pub expected: Seq<char>,
    pub contains: bool,
}

impl View for WherePredicate {
    type V = Predicate;

    open spec fn view(&self) -> Predicate {
        Predicate { field: self.field@, expected: self.expected@, contains: self.contains }
    }
}

pub open spec fn predicate_models(predicates: Seq<WherePredicate>) -> Seq<Predicate> {
    predicates.map_values(|predicate: WherePredicate| predicate@)
}

/// Why a selection is refused.
#[derive(Debug)]
pub enum JsonSelectFault {
    NoRows,
    NoValueChars,
    KeysWithFields,
    /// A condition without `=`.
    NoEquals { contains: bool, raw: String },
    /// A condition without a field.
    NoField { contains: bool, raw: String },
    BadSelector { selector: String, fault: PointerFault },
    AtMissing { selector: String },
    EntriesNeedObject,
    EntriesNeedRecord,
}

pub open spec fn flag_of(contains: bool) -> Seq<char> {
    if contains {
        "--where-contains"@
    } else {
        "--where"@
    }
}

fn flag_name(contains: bool) -> (flag: &'static str)
    ensures
        flag@ == flag_of(contains),
{
    if contains {
        "--where-contains"
    } else {
        "--where"
    }
}

impl JsonSelectFault {
    pub fn message(&self) -> (message: String)
        ensures
            message@ == match self {
                JsonSelectFault::NoRows => "json-select --show-rows must be greater than zero"@,
                JsonSelectFault::NoValueChars =>
                    "json-select --show-value-chars must be greater than zero"@,
                JsonSelectFault::KeysWithFields =>
                    "json-select --keys reports row shape and cannot be combined with --fields"@,
                JsonSelectFault::NoEquals { contains, raw } => flag_of(*contains)
                    + " requires FIELD=VALUE, found "@ + strings::debug_quoted(raw@),
                JsonSelectFault::NoField { contains, raw } => flag_of(*contains)
                    + " requires a non-empty field name: "@ + strings::debug_quoted(raw@),
                JsonSelectFault::BadSelector { selector, fault } => json_pointer::fault_message(
                    *fault,
                    selector@,
                ),
                JsonSelectFault::AtMissing { selector } =>
                    "json-select --at selector did not match: "@ + selector@,
                JsonSelectFault::EntriesNeedObject =>
                    "json-select --entries requires the selected value to be an object"@,
                JsonSelectFault::EntriesNeedRecord =>
                    "json-select --entries on JSONL requires --at with a record index, for example --at /1/instructions"@,
            },
    {
        match self {
            JsonSelectFault::NoRows =>
                "json-select --show-rows must be greater than zero".to_owned(),
            JsonSelectFault::NoValueChars =>
                "json-select --show-value-chars must be greater than zero".to_owned(),
            JsonSelectFault::KeysWithFields =>
                "json-select --keys reports row shape and cannot be combined with --fields".to_owned(),
            JsonSelectFault::NoEquals { contains, raw } => flag_name(*contains).to_owned().concat(
                " requires FIELD=VALUE, found ",
            ).concat(debug_text(raw.as_str()).as_str()),
            JsonSelectFault::NoField { contains, raw } => flag_name(*contains).to_owned().concat(
                " requires a non-empty field name: ",
            ).concat(debug_text(raw.as_str()).as_str()),
            JsonSelectFault::BadSelector { selector, fault } => fault.message(selector.as_str()),
            JsonSelectFault::AtMissing { selector } =>
                "json-select --at selector did not match: ".to_owned().concat(selector.as_str()),
            JsonSelectFault::EntriesNeedObject =>
                "json-select --entries requires the selected value to be an object".to_owned(),
            JsonSelectFault::EntriesNeedRecord =>
                "json-select --entries on JSONL requires --at with a record index, for example --at /1/instructions".to_owned(),
        }
    }
}

/// The condition that a text spells.
pub open spec fn predicate_of(raw: Seq<char>, contains: bool) -> Option<Predicate> {
    match strings::split_at_first(raw, CharClass::Only('=')) {
        Some((field, expected)) => if field.len() > 0 {
            Some(Predicate { field, expected, contains })
        } else {
            None
        },
        None => None,
    }
}

pub open spec fn all_spell(raws: Seq<Seq<char>>, contains: bool) -> bool {
    forall|i: int| 0 <= i < raws.len() ==> predicate_of(#[trigger] raws[i], contains) is Some
}

pub open spec fn spelled(raws: Seq<Seq<char>>, contains: bool) -> Seq<Predicate> {
    raws.map_values(|raw: Seq<char>| predicate_of(raw, contains)->0)
}

/// Whether the fault is the one of this text, the first of its list that spells
/// no condition.
pub open spec fn is_fault_of(fault: JsonSelectFault, raw: Seq<char>, contains: bool) -> bool {
    match strings::split_at_first(raw, CharClass::Only('=')) {
        None => fault matches JsonSelectFault::NoEquals { contains: c, raw: r } && c == contains
            && r@ == raw,
        Some((field, _)) => field.len() == 0 && (fault matches JsonSelectFault::NoField {
            contains: c,
            raw: r,
        } && c == contains && r@ == raw),
    }
}

fn push_predicates(predicates: &mut Vec<WherePredicate>, raws: &[String], contains: bool) -> (fault:
    Option<JsonSelectFault>)
    ensures
        ({
            let texts = strings::texts(raws@);
            match fault {
                None => all_spell(texts, contains) && predicate_models(final(predicates)@)
                    == predicate_models(old(predicates)@) + spelled(texts, contains),
                Some(fault) => exists|i: int|
                    0 <= i < texts.len() && all_spell(texts.take(i), contains) && is_fault_of(
                        fault,
                        #[trigger] texts[i],
                        contains,
                    ),
            }
        }),
{
    let ghost texts = strings::texts(raws@);
    let ghost wanted = spelled(texts, contains);
    let ghost before = predicate_models(predicates@);
    let mut i: usize = 0;
    assert(before + wanted.take(0) =~= before);
    while i < raws.len()
        invariant
            i <= raws.len(),
            texts == strings::texts(raws@),
            wanted == spelled(texts, contains),
            all_spell(texts.take(i as int), contains),
            predicate_models(predicates@) == before + wanted.take(i as int),
        decreases raws.len() - i,
    {
        assert(texts[i as int] == raws@[i as int]@);
        match split_first(raws[i].as_str(), CharClass::Only('=')) {
            None => {
                return Some(JsonSelectFault::NoEquals { contains, raw: raws[i].clone() });
            },
            Some((field, expected)) => {
                if field.as_str().is_empty() {
                    return Some(JsonSelectFault::NoField { contains, raw: raws[i].clone() });
                }
                let ghost sofar = predicates@;
                let predicate = WherePredicate { field, expected, contains };
                predicates.push(predicate);
                assert(predicate_models(predicates@) =~= predicate_models(sofar).push(predicate@));
                assert(before + wanted.take(i + 1) =~= (before + wanted.take(i as int)).push(
                    wanted[i as int],
                ));
                assert forall|k: int| 0 <= k < i + 1 implies predicate_of(
                    #[trigger] texts.take(i + 1)[k],
                    contains,
                ) is Some by {
                    if k < i {
                        assert(texts.take(i as int)[k] == texts[k]);
                    }
                }
            },
        }
        i += 1;
    }
    assert(texts.take(i as int) =~= texts);
    assert(wanted.take(i as int) =~= wanted);
    None
}

/// The conditions that rows are held to: exact ones first.
pub fn parse_where_predicates(exact: &[String], contains: &[String]) -> (predicates: Result<
    Vec<WherePredicate>,
    JsonSelectFault,
>)
    ensures
        ({
            let exact_texts = strings::texts(exact@);
            let contains_texts = strings::texts(contains@);
            match predicates {
                Ok(predicates) => {
                    &&& all_spell(exact_texts, false)
                    &&& all_spell(contains_texts, true)
                    &&& predicate_models(predicates@) == spelled(exact_texts, false) + spelled(
                        contains_texts,
                        true,
                    )
                },
                Err(fault) => {
                    ||| exists|i: int|
                        0 <= i < exact_texts.len() && all_spell(exact_texts.take(i), false)
                            && is_fault_of(fault, #[trigger] exact_texts[i], false)
                    ||| all_spell(exact_texts, false) && exists|i: int|
                        0 <= i < contains_texts.len() && all_spell(contains_texts.take(i), true)
                            && is_fault_of(fault, #[trigger] contains_texts[i], true)
                },
            }
        }),
{
    let mut predicates: Vec<WherePredicate> = Vec::new();
    assert(predicate_models(predicates@) =~= Seq::empty());
    if let Some(fault) = push_predicates(&mut predicates, exact, false) {
        return Err(fault);
    }
    assert(predicate_models(predicates@) =~= spelled(strings::texts(exact@), false));
    if let Some(fault) = push_predicates(&mut predicates, contains, true) {
        return Err(fault);
    }
    Ok(predicates)
}

/// The value that a selector picks from a row; nothing where the selector is no
/// selector.
pub open spec fn picked(row: Json, selector: Seq<char>) -> Option<Json> {
    match json_pointer::selected(row, selector) {
        Ok(found) => found,
        Err(_) => None,
    }
}

/// The value that a selector picks from a row.
pub fn pick<'a>(row: &'a JsonValue, selector: &str) -> (found: Option<&'a JsonValue>)
    ensures
        match found {
            Some(value) => picked(row@, selector@) == Some(value@),
            None => picked(row@, selector@) is None,
        },
{
    match json_select_field(row, selector) {
        Ok(found) => found,
        Err(_) => None,
    }
}

/// The text that a condition compares: the contents of a string, the compact form
/// of any other value.
pub open spec fn compared(value: Json) -> Seq<char> {
    match value {
        Json::Text(text) => text,
        _ => json::compact(value),
    }
}

impl Predicate {
    /// Whether a row meets the condition. A row without the field does not.
    pub open spec fn holds(self, row: Json) -> bool {
        match picked(row, self.field) {
            None => false,
            Some(value) => if self.contains {
                strings::contains_text(compared(value), self.expected)
            } else {
                compared(value) == self.expected
            },
        }
    }
}

/// Whether a row meets every condition.
pub open spec fn meets_all(row: Json, predicates: Seq<Predicate>) -> bool {
    forall|i: int| 0 <= i < predicates.len() ==> (#[trigger] predicates[i]).holds(row)
}

/// Whether a row meets a condition.
pub fn where_predicate_matches(row: &JsonValue, predicate: &WherePredicate) -> (held: bool)
    ensures
        held == predicate@.holds(row@),
{
    match pick(row, predicate.field.as_str()) {
        None => false,
        Some(value) => {
            let rendered = match value {
                JsonValue::Text(text) => text.clone(),
                _ => value.to_compact(),
            };
            if predicate.contains {
                contains(rendered.as_str(), predicate.expected.as_str())
            } else {
                same_text(rendered.as_str(), predicate.expected.as_str())
            }
        },
    }
}

/// Whether a row meets every condition.
pub fn row_matches_predicates(row: &JsonValue, predicates: &[WherePredicate]) -> (held: bool)
    ensures
        held == meets_all(row@, predicate_models(predicates@)),
{
    let ghost models = predicate_models(predicates@);
    let mut i: usize = 0;
    while i < predicates.len()
        invariant
            i <= predicates.len(),
            models == predicate_models(predicates@),
            forall|k: int| 0 <= k < i ==> (#[trigger] models[k]).holds(row@),
        decreases predicates.len() - i,
    {
        assert(models[i as int] == predicates@[i as int]@);
        if !where_predicate_matches(row, &predicates[i]) {
            return false;
        }
        i += 1;
    }
    true
}

/// The comma-separated parts of a text from `from` on, each trimmed, empty ones
/// left out.
pub open spec fn field_parts(text: Seq<char>, from: int) -> Seq<Seq<char>>
    decreases text.len() - from + 1,
{
    if from < 0 || from > text.len() {
        Seq::empty()
    } else {
        proof {
            strings::lemma_find_class_bounds(text, CharClass::Only(','), from);
        }
        let end = strings::find_class(text, CharClass::Only(','), from);
        let part = strings::trim(text.subrange(from, end));
        let rest = field_parts(text, end + 1);
        if part.len() > 0 {
            seq![part] + rest
        } else {
            rest
        }
    }
}

/// The fields that the first `n` texts name.
pub open spec fn expanded_fields(fields: Seq<Seq<char>>, n: nat) -> Seq<Seq<char>>
    decreases n,
{
    if n == 0 || n > fields.len() {
        Seq::empty()
    } else {
        expanded_fields(fields, (n - 1) as nat) + field_parts(fields[n - 1], 0)
    }
}

fn push_field_parts(expanded: &mut Vec<String>, field: &str)
    ensures
        strings::texts(final(expanded)@) == strings::texts(old(expanded)@) + field_parts(field@, 0),
{
    let chars = chars_of(field);
    let ghost before = strings::texts(expanded@);
    let mut from: usize = 0;
    loop
        invariant_except_break
            chars@ == field@,
            from <= chars.len(),
            strings::texts(expanded@) + field_parts(field@, from as int) == before + field_parts(
                field@,
                0,
            ),
        ensures
            strings::texts(expanded@) == before + field_parts(field@, 0),
        decreases chars.len() + 1 - from,
    {
        let end = strings::find_class_from(&chars, CharClass::Only(','), from);
        let part = trim_of(cut_string(&chars, from, end).as_str());
        let ghost sofar = expanded@;
        let ghost rest = field_parts(field@, end + 1);
        if !part.as_str().is_empty() {
            expanded.push(part);
            assert(strings::texts(expanded@) =~= strings::texts(sofar).push(part@));
            assert(strings::texts(expanded@) + rest =~= strings::texts(sofar) + (seq![part@]
                + rest));
        }
        if end >= chars.len() {
            assert(rest =~= Seq::empty());
            assert(strings::texts(expanded@) + rest =~= strings::texts(expanded@));
            break ;
        }
        from = end + 1;
    }
}

/// The fields that comma-separated lists name.
pub fn expand_json_select_fields(fields: &[String]) -> (expanded: Vec<String>)
    ensures
        strings::texts(expanded@) == expanded_fields(strings::texts(fields@), fields@.len()),
{
    let ghost texts = strings::texts(fields@);
    let mut expanded: Vec<String> = Vec::new();
    let mut i: usize = 0;
    assert(strings::texts(expanded@) =~= Seq::empty());
    while i < fields.len()
        invariant
            i <= fields.len(),
            texts == strings::texts(fields@),
            strings::texts(expanded@) == expanded_fields(texts, i as nat),
        decreases fields.len() - i,
    {
        assert(texts[i as int] == fields@[i as int]@);
        push_field_parts(&mut expanded, fields[i].as_str());
        i += 1;
    }
    expanded
}

/// The fields that are watched for being null or missing everywhere: those that
/// are shown, then those of the first `n` conditions that are not among them.
pub open spec fn audited(
    fields: Seq<Seq<char>>,
    predicates: Seq<Predicate>,
    n: nat,
) -> Seq<Seq<char>>
    decreases n,
{
    if n == 0 || n > predicates.len() {
        fields
    } else {
        let before = audited(fields, predicates, (n - 1) as nat);
        if before.contains(predicates[n - 1].field) {
            before
        } else {
            before.push(predicates[n - 1].field)
        }
    }
}

/// What is selected, and how much of it is shown.
#[derive(Debug)]
pub struct JsonSelectRequest {
    pub at: Option<String>,
    pub entries: bool,
    pub fields: Vec<String>,
    pub keys: bool,
    pub predicates: Vec<WherePredicate>,
    /// Fields watched for being null or missing in every row.
    pub audited: Vec<String>,
    pub show_rows: usize,
    pub show_value_chars: usize,
}

/// The first fault among selectors.
pub open spec fn has_fault(selector: Seq<char>) -> bool {
    json_pointer::selector_fault(selector) is Some
}

impl JsonSelectRequest {
    /// Every selector is one, the watched fields are the right ones, and
    /// something is shown.
    pub open spec fn well_formed(&self) -> bool {
        &&& self.show_rows > 0
        &&& self.show_value_chars > 0
        &&& !(self.keys && self.fields@.len() > 0)
        &&& strings::texts(self.audited@) == audited(
            strings::texts(self.fields@),
            predicate_models(self.predicates@),
            self.predicates@.len(),
        )
        &&& self.at matches Some(at) ==> !has_fault(at@)
        &&& forall|i: int|
            0 <= i < self.audited@.len() ==> !has_fault(
                #[trigger] strings::texts(self.audited@)[i],
            )
    }
}

fn audit_list(fields: &[String], predicates: &[WherePredicate]) -> (list: Vec<String>)
    ensures
        strings::texts(list@) == audited(
            strings::texts(fields@),
            predicate_models(predicates@),
            predicates@.len(),
        ),
{
    let ghost models = predicate_models(predicates@);
    let ghost texts = strings::texts(fields@);
    let mut list = copy_strings(fields);
    let mut i: usize = 0;
    while i < predicates.len()
        invariant
            i <= predicates.len(),
            models == predicate_models(predicates@),
            texts == strings::texts(fields@),
            strings::texts(list@) == audited(texts, models, i as nat),
        decreases predicates.len() - i,
    {
        assert(models[i as int] == predicates@[i as int]@);
        if !has_text(&list, predicates[i].field.as_str()) {
            let ghost before = list@;
            let field = predicates[i].field.clone();
            list.push(field);
            assert(strings::texts(list@) =~= strings::texts(before).push(field@));
        }
        i += 1;
    }
    list
}

/// Whether a text is in a list.
pub fn has_text(list: &[String], wanted: &str) -> (held: bool)
    ensures
        held == strings::texts(list@).contains(wanted@),
{
    let ghost all = strings::texts(list@);
    let mut i: usize = 0;
    while i < list.len()
        invariant
            i <= list.len(),
            all == strings::texts(list@),
            forall|k: int| 0 <= k < i ==> #[trigger] all[k] != wanted@,
        decreases list.len() - i,
    {
        assert(all[i as int] == list@[i as int]@);
        if same_text(list[i].as_str(), wanted) {
            return true;
        }
        i += 1;
    }
    false
}

/// The request that the command line makes. Selectors are held to their syntax
/// before anything is read.
pub fn json_select_request(
    at: Option<String>,
    entries: bool,
    fields: &[String],
    keys: bool,
    where_exact: &[String],
    where_contains: &[String],
    show_rows: usize,
    show_value_chars: usize,
) -> (request: Result<JsonSelectRequest, JsonSelectFault>)
    ensures
        ({
            let expanded = expanded_fields(strings::texts(fields@), fields@.len());
            let spelled_out = all_spell(strings::texts(where_exact@), false) && all_spell(
                strings::texts(where_contains@),
                true,
            );
            let predicates = spelled(strings::texts(where_exact@), false) + spelled(
                strings::texts(where_contains@),
                true,
            );
            let watched = audited(expanded, predicates, predicates.len());
            match request {
                Ok(request) => {
                    &&& request.well_formed()
                    &&& request.at == at
                    &&& request.entries == entries
                    &&& request.keys == keys
                    &&& request.show_rows == show_rows
                    &&& request.show_value_chars == show_value_chars
                    &&& strings::texts(request.fields@) == expanded
                    &&& predicate_models(request.predicates@) == predicates
                    &&& spelled_out
                },
                Err(JsonSelectFault::NoRows) => show_rows == 0,
                Err(JsonSelectFault::NoValueChars) => show_rows > 0 && show_value_chars == 0,
                Err(JsonSelectFault::KeysWithFields) => show_rows > 0 && show_value_chars > 0
                    && keys && expanded.len() > 0,
                Err(JsonSelectFault::BadSelector { selector, fault }) => {
                    &&& show_rows > 0 && show_value_chars > 0 && !(keys && expanded.len() > 0)
                    &&& spelled_out
                    &&& json_pointer::selector_fault(selector@) == Some(fault)
                    &&& (at matches Some(a) && a@ == selector@) || watched.contains(selector@)
                },
                Err(JsonSelectFault::NoEquals { .. }) => show_rows > 0 && show_value_chars > 0 && !(
                keys && expanded.len() > 0) && !spelled_out,
                Err(JsonSelectFault::NoField { .. }) => show_rows > 0 && show_value_chars > 0 && !(
                keys && expanded.len() > 0) && !spelled_out,
                Err(_) => false,
            }
        }),
{
    if show_rows == 0 {
        return Err(JsonSelectFault::NoRows);
    }
    if show_value_chars == 0 {
        return Err(JsonSelectFault::NoValueChars);
    }
    let expanded = expand_json_select_fields(fields);
    assert(strings::texts(expanded@).len() == expanded@.len());
    if keys && expanded.len() > 0 {
        return Err(JsonSelectFault::KeysWithFields);
    }
    let predicates = match parse_where_predicates(where_exact, where_contains) {
        Ok(predicates) => predicates,
        Err(fault) => {
            return Err(fault);
        },
    };
    assert(predicate_models(predicates@).len() == predicates@.len());
    let watched = audit_list(&expanded, &predicates);
    if let Some(selector) = &at {
        if let Err(fault) = validate_selector(selector.as_str()) {
            return Err(JsonSelectFault::BadSelector { selector: selector.clone(), fault });
        }
    }
    let ghost texts = strings::texts(watched@);
    let mut i: usize = 0;
    while i < watched.len()
        invariant
            i <= watched.len(),
            texts == strings::texts(watched@),
            forall|k: int| 0 <= k < i ==> !has_fault(#[trigger] texts[k]),
            show_rows > 0,
            show_value_chars > 0,
            !(keys && expanded_fields(strings::texts(fields@), fields@.len()).len() > 0),
            all_spell(strings::texts(where_exact@), false),
            all_spell(strings::texts(where_contains@), true),
            texts == audited(
                expanded_fields(strings::texts(fields@), fields@.len()),
                spelled(strings::texts(where_exact@), false) + spelled(
                    strings::texts(where_contains@),
                    true,
                ),
                (spelled(strings::texts(where_exact@), false) + spelled(
                    strings::texts(where_contains@),
                    true,
                )).len(),
            ),
        decreases watched.len() - i,
    {
        assert(texts[i as int] == watched@[i as int]@);
        if let Err(fault) = validate_selector(watched[i].as_str()) {
            assert(texts.contains(watched@[i as int]@));
            return Err(JsonSelectFault::BadSelector { selector: watched[i].clone(), fault });
        }
        i += 1;
    }
    Ok(
        JsonSelectRequest {
            at,
            entries,
            fields: expanded,
            keys,
            predicates,
            audited: watched,
            show_rows,
            show_value_chars,
        },
    )
}

/// What is known of a key of the rows.
#[derive(Debug)]
pub struct JsonKeyStat {
    pub present: usize,
    pub non_null: usize,
    /// Which types its values have: array, bool, null, number, object, string.
    pub types: [bool; 6],
}

/// The position of a value's type among the names of types in lexical order.
pub open spec fn kind_index(value: Json) -> int {
    match value {
        Json::Array(_) => 0,
        Json::Bool(_) => 1,
        Json::Null => 2,
        Json::Number(_) => 3,
        Json::Object(_) => 4,
        Json::Text(_) => 5,
    }
}

/// The model of what is known of a key.
pub struct KeyCount {
    pub present: nat,
    pub non_null: nat,
    pub types: Seq<bool>,
}

impl View for JsonKeyStat {
    type V = KeyCount;

    open spec fn view(&self) -> KeyCount {
        KeyCount {
            present: self.present as nat,
            non_null: self.non_null as nat,
            types: self.types@,
        }
    }
}

/// A count that stops at the largest machine word.
pub open spec fn bumped(n: nat) -> nat {
    if n < usize::MAX {
        n + 1
    } else {
        n
    }
}

fn bump(n: usize) -> (more: usize)
    ensures
        more == bumped(n as nat),
{
    if n < usize::MAX {
        n + 1
    } else {
        n
    }
}

impl KeyCount {
    pub open spec fn none() -> KeyCount {
        KeyCount { present: 0, non_null: 0, types: Seq::new(6, |i: int| false) }
    }

    /// The count once a value was seen under the key.
    pub open spec fn with(self, value: Json) -> KeyCount {
        KeyCount {
            present: bumped(self.present),
            non_null: if value is Null {
                self.non_null
            } else {
                bumped(self.non_null)
            },
            types: self.types.update(kind_index(value), true),
        }
    }
}

/// What is known of the keys of the rows: keys in lexical order, and for each
/// what is known of it.
#[derive(Debug)]
pub struct KeyStats {
    pub keys: Vec<String>,
    pub stats: Vec<JsonKeyStat>,
}

/// The model of what is known of the keys.
pub struct KeyTable {
    pub keys: Seq<Seq<char>>,
    pub counts: Seq<KeyCount>,
}

pub open spec fn stat_models(stats: Seq<JsonKeyStat>) -> Seq<KeyCount> {
    stats.map_values(|stat: JsonKeyStat| stat@)
}

impl View for KeyStats {
    type V = KeyTable;

    open spec fn view(&self) -> KeyTable {
        KeyTable { keys: strings::texts(self.keys@), counts: stat_models(self.stats@) }
    }
}

impl KeyTable {
    pub open spec fn well_formed(self) -> bool {
        ordering::is_sorted(self.keys) && self.keys.len() == self.counts.len()
    }

    /// What is known of a key; nothing seen where it is not in the table.
    pub open spec fn count_of(self, key: Seq<char>) -> KeyCount {
        let at = ordering::place_of(self.keys, key);
        if at < self.keys.len() && self.keys[at] == key {
            self.counts[at]
        } else {
            KeyCount::none()
        }
    }

    /// The table once a member was seen.
    pub open spec fn with(self, key: Seq<char>, value: Json) -> KeyTable {
        let at = ordering::place_of(self.keys, key);
        if at < self.keys.len() && self.keys[at] == key {
            KeyTable { keys: self.keys, counts: self.counts.update(at, self.counts[at].with(value)) }
        } else {
            KeyTable {
                keys: self.keys.insert(at, key),
                counts: self.counts.insert(at, KeyCount::none().with(value)),
            }
        }
    }

    /// The table once the first `n` members of a row were seen.
    pub open spec fn with_members(self, members: Seq<(Seq<char>, Json)>, n: nat) -> KeyTable
        decreases n,
    {
        if n == 0 || n > members.len() {
            self
        } else {
            self.with_members(members, (n - 1) as nat).with(
                members[n - 1].0,
                members[n - 1].1,
            )
        }
    }
}

/// A member adds its key to the table, in order, and changes what is known of no
/// other key.
pub proof fn seeing_a_member(table: KeyTable, key: Seq<char>, value: Json, other: Seq<char>)
    requires
        table.well_formed(),
    ensures
        table.with(key, value).well_formed(),
        table.with(key, value).count_of(key) == table.count_of(key).with(value),
        other != key ==> table.with(key, value).count_of(other) == table.count_of(other),
        forall|k: Seq<char>|
            table.with(key, value).keys.contains(k) <==> (table.keys.contains(k) || k == key),
{
    let at = ordering::place_of(table.keys, key);
    let more = table.with(key, value);
    ordering::lemma_place(table.keys, key);
    ordering::lemma_place(table.keys, other);
    if !table.keys.contains(key) {
        assert(more.keys[at] == key);
        assert forall|k: Seq<char>| more.keys.contains(k) <==> (table.keys.contains(k) || k
            == key) by {
            if table.keys.contains(k) {
                let j = choose|j: int| 0 <= j < table.keys.len() && table.keys[j] == k;
                assert(more.keys[if j < at {
                    j
                } else {
                    j + 1
                }] == k);
            }
            if more.keys.contains(k) && k != key {
                let j = choose|j: int| 0 <= j < more.keys.len() && more.keys[j] == k;
                assert(table.keys[if j < at {
                    j
                } else {
                    j - 1
                }] == k);
            }
        }
    }
    ordering::lemma_place(more.keys, key);
    ordering::lemma_place(more.keys, other);
    lemma_sorted_positions_unique(more.keys);
    lemma_sorted_positions_unique(table.keys);
    if other != key {
        let p = ordering::place_of(table.keys, other);
        let q = ordering::place_of(more.keys, other);
        if table.keys.contains(other) {
            assert(table.keys[p] == other);
            assert(more.keys[q] == other);
            if table.keys.contains(key) {
                assert(more.keys =~= table.keys);
                assert(p != at);
            } else {
                let shifted = if p < at {
                    p
                } else {
                    p + 1
                };
                assert(more.keys[shifted] == other);
                assert(q == shifted);
            }
        }
    }
}

proof fn lemma_sorted_positions_unique(texts: Seq<Seq<char>>)
    requires
        ordering::is_sorted(texts),
    ensures
        forall|i: int, j: int|
            0 <= i < texts.len() && 0 <= j < texts.len() && texts[i] == texts[j] ==> i == j,
{
    assert forall|i: int, j: int|
        0 <= i < texts.len() && 0 <= j < texts.len() && texts[i] == texts[j] implies i == j by {
        ordering::lemma_order(texts[i], texts[j], texts[i]);
        if i < j {
            assert(ordering::is_before(texts[i], texts[j]));
        } else if j < i {
            assert(ordering::is_before(texts[j], texts[i]));
        }
    }
}

fn kind_index_of(value: &JsonValue) -> (index: usize)
    ensures
        index == kind_index(value@),
        index < 6,
{
    match value {
        JsonValue::Array(_) => 0,
        JsonValue::Bool(_) => 1,
        JsonValue::Null => 2,
        JsonValue::Number(_) => 3,
        JsonValue::Object(_) => 4,
        JsonValue::Text(_) => 5,
    }
}

fn note_value(stat: &JsonKeyStat, value: &JsonValue) -> (noted: JsonKeyStat)
    ensures
        noted@ == stat@.with(value@),
{
    let mut types: [bool; 6] = stat.types;
    types[kind_index_of(value)] = true;
    JsonKeyStat {
        present: bump(stat.present),
        non_null: if value.is_null() {
            stat.non_null
        } else {
            bump(stat.non_null)
        },
        types,
    }
}

impl KeyStats {
    pub fn new() -> (stats: KeyStats)
        ensures
            stats@ == (KeyTable { keys: Seq::empty(), counts: Seq::empty() }),
            stats@.well_formed(),
    {
        let stats = KeyStats { keys: Vec::new(), stats: Vec::new() };
        assert(stats@.keys =~= Seq::empty());
        assert(stats@.counts =~= Seq::empty());
        stats
    }

    fn note(&mut self, key: &str, value: &JsonValue)
        requires
            old(self)@.well_formed(),
        ensures
            final(self)@ == old(self)@.with(key@, value@),
            final(self)@.well_formed(),
    {
        let ghost table = self@;
        let at = find_place(&self.keys, key);
        proof {
            ordering::lemma_place(table.keys, key@);
            seeing_a_member(table, key@, value@, key@);
        }
        assert(self.keys@.len() == table.keys.len());
        assert(self.stats@.len() == table.counts.len());
        if at < self.keys.len() {
            assert(table.keys[at as int] == self.keys@[at as int]@);
        }
        if at < self.keys.len() && same_text(self.keys[at].as_str(), key) {
            let noted = note_value(&self.stats[at], value);
            assert(table.counts[at as int] == self.stats@[at as int]@);
            let ghost before = self.stats@;
            self.stats.set(at, noted);
            assert(stat_models(self.stats@) =~= stat_models(before).update(at as int, noted@));
        } else {
            let fresh = JsonKeyStat {
                present: 0,
                non_null: 0,
                types: [false, false, false, false, false, false],
            };
            assert(fresh@.types =~= KeyCount::none().types);
            let noted = note_value(&fresh, value);
            let ghost before = self.stats@;
            let ghost keys_before = self.keys@;
            let name = key.to_owned();
            self.keys.insert(at, name);
            self.stats.insert(at, noted);
            assert(strings::texts(self.keys@) =~= strings::texts(keys_before).insert(
                at as int,
                key@,
            ));
            assert(stat_models(self.stats@) =~= stat_models(before).insert(at as int, noted@));
        }
    }
}

/// Notes the keys of a row, or that the row is no object.
pub fn collect_row_keys(row: &JsonValue, key_stats: &mut KeyStats, non_object_rows: &mut usize)
    requires
        old(key_stats)@.well_formed(),
    ensures
        final(key_stats)@.well_formed(),
        match row@ {
            Json::Object(members) => {
                &&& final(key_stats)@ == old(key_stats)@.with_members(members, members.len())
                &&& *final(non_object_rows) == *old(non_object_rows)
            },
            _ => {
                &&& final(key_stats)@ == old(key_stats)@
                &&& *final(non_object_rows) == bumped(*old(non_object_rows) as nat)
            },
        },
{
    match row {
        JsonValue::Object(members) => {
            proof {
                json::lemma_object_view(*members);
            }
            let ghost models = json::member_models(members@);
            let ghost start = key_stats@;
            let mut i: usize = 0;
            while i < members.len()
                invariant
                    i <= members.len(),
                    models == json::member_models(members@),
                    key_stats@.well_formed(),
                    key_stats@ == start.with_members(models, i as nat),
                decreases members.len() - i,
            {
                assert(models[i as int] == (members@[i as int].0@, members@[i as int].1@));
                key_stats.note(members[i].0.as_str(), &members[i].1);
                i += 1;
            }
        },
        _ => {
            *non_object_rows = bump(*non_object_rows);
        },
    }
}

/// Whether each watched field was not null in some row.
pub open spec fn seen_after(row: Json, fields: Seq<Seq<char>>, seen: Seq<bool>) -> Seq<bool> {
    Seq::new(
        seen.len(),
        |i: int| seen[i] || (picked(row, fields[i]) is Some && !(picked(row, fields[i])->0 is Null)),
    )
}

/// Notes which watched fields are not null in a row.
pub fn audit_fields(row: &JsonValue, audited_fields: &[String], field_seen_non_null: &mut Vec<bool>)
    requires
        old(field_seen_non_null)@.len() == audited_fields@.len(),
    ensures
        final(field_seen_non_null)@ == seen_after(
            row@,
            strings::texts(audited_fields@),
            old(field_seen_non_null)@,
        ),
{
    let ghost fields = strings::texts(audited_fields@);
    let ghost start = field_seen_non_null@;
    let ghost wanted = seen_after(row@, fields, start);
    let mut i: usize = 0;
    while i < audited_fields.len()
        invariant
            i <= audited_fields.len(),
            fields == strings::texts(audited_fields@),
            start.len() == audited_fields@.len(),
            field_seen_non_null@.len() == start.len(),
            wanted == seen_after(row@, fields, start),
            forall|k: int| 0 <= k < i ==> field_seen_non_null@[k] == wanted[k],
            forall|k: int| i <= k < start.len() ==> field_seen_non_null@[k] == start[k],
        decreases audited_fields.len() - i,
    {
        assert(fields[i as int] == audited_fields@[i as int]@);
        if !field_seen_non_null[i] {
            if let Some(value) = pick(row, audited_fields[i].as_str()) {
                if !value.is_null() {
                    field_seen_non_null.set(i, true);
                }
            }
        }
        i += 1;
    }
    assert(field_seen_non_null@ =~= wanted);
}

/// A row and, for an entry of an object, its key and pointer.
#[derive(Debug)]
pub struct SelectedRow {
    pub value: JsonValue,
    pub entry: Option<(String, String)>,
}

/// The model of a row.
pub struct Row {
    pub value: Json,
    pub entry: Option<(Seq<char>, Seq<char>)>,
}

impl View for SelectedRow {
    type V = Row;

    open spec fn view(&self) -> Row {
        Row {
            value: self.value@,
            entry: match self.entry {
                Some((key, pointer)) => Some((key@, pointer@)),
                None => None,
            },
        }
    }
}

pub open spec fn row_models(rows: Seq<SelectedRow>) -> Seq<Row> {
    rows.map_values(|row: SelectedRow| row@)
}

pub open spec fn plain_rows(values: Seq<Json>) -> Seq<Row> {
    values.map_values(|value: Json| Row { value, entry: None })
}

/// The pointer that a selector stands for.
pub open spec fn selector_pointer(at: Option<Seq<char>>) -> Seq<char> {
    match at {
        None => Seq::empty(),
        Some(selector) => if json_pointer::is_pointer(selector) {
            selector
        } else {
            json_pointer::below(Seq::empty(), selector)
        },
    }
}

/// The entries of an object in lexical order of their keys.
pub open spec fn entry_rows(members: Seq<(Seq<char>, Json)>, pointer: Seq<char>) -> Seq<Row> {
    let keys = members.map_values(|member: (Seq<char>, Json)| member.0);
    ordering::sorted_set(keys, keys.len()).map_values(
        |key: Seq<char>|
            Row {
                value: json::member_of(members, key)->0,
                entry: Some((key, json_pointer::below(pointer, key))),
            },
    )
}

/// The value that rows are taken from: the document, or what `at` selects in it.
pub open spec fn selected_value(document: Json, at: Option<Seq<char>>) -> Option<Json> {
    match at {
        None => Some(document),
        Some(selector) => picked(document, selector),
    }
}

/// The rows of a document.
pub open spec fn document_rows(
    document: Json,
    format: InputFormat,
    at: Option<Seq<char>>,
    entries: bool,
) -> Option<Seq<Row>> {
    match selected_value(document, at) {
        None => None,
        Some(value) => if entries {
            match value {
                Json::Object(members) => if at is None && format == InputFormat::Jsonl {
                    None
                } else {
                    Some(entry_rows(members, selector_pointer(at)))
                },
                _ => None,
            }
        } else {
            match value {
                Json::Array(items) => if at is Some || format == InputFormat::Jsonl {
                    Some(plain_rows(items))
                } else {
                    Some(plain_rows(seq![value]))
                },
                _ => Some(plain_rows(seq![value])),
            }
        },
    }
}

pub open spec fn optional_text(text: Option<String>) -> Option<Seq<char>> {
    match text {
        Some(text) => Some(text@),
        None => None,
    }
}

fn push_row(rows: &mut Vec<SelectedRow>, row: SelectedRow)
    ensures
        row_models(final(rows)@) == row_models(old(rows)@).push(row@),
{
    let ghost before = rows@;
    rows.push(row);
    assert(row_models(rows@) =~= row_models(before).push(row@));
}

fn entries_of(value: &JsonValue, members: &Vec<(String, JsonValue)>, pointer: &str) -> (rows: Vec<
    SelectedRow,
>)
    requires
        value == JsonValue::Object(*members),
    ensures
        row_models(rows@) == entry_rows(json::member_models(members@), pointer@),
{
    proof {
        json::lemma_object_view(*members);
    }
    let ghost models = json::member_models(members@);
    let ghost keys = models.map_values(|member: (Seq<char>, Json)| member.0);
    let mut names: Vec<String> = Vec::new();
    let mut i: usize = 0;
    while i < members.len()
        invariant
            i <= members.len(),
            models == json::member_models(members@),
            keys == models.map_values(|member: (Seq<char>, Json)| member.0),
            strings::texts(names@) == keys.take(i as int),
        decreases members.len() - i,
    {
        let ghost before = names@;
        let name = members[i].0.clone();
        assert(models[i as int].0 == name@);
        names.push(name);
        assert(strings::texts(names@) =~= strings::texts(before).push(name@));
        assert(keys.take(i + 1) =~= keys.take(i as int).push(keys[i as int]));
        i += 1;
    }
    assert(keys.take(i as int) =~= keys);
    let sorted = sort_texts(&names);
    let ghost order = ordering::sorted_set(keys, keys.len());
    let ghost wanted = entry_rows(models, pointer@);
    proof {
        ordering::lemma_sorted_set(keys, keys.len());
    }
    assert(strings::texts(names@).len() == names@.len());
    let mut rows: Vec<SelectedRow> = Vec::new();
    let mut k: usize = 0;
    assert(row_models(rows@) =~= wanted.take(0));
    while k < sorted.len()
        invariant
            k <= sorted.len(),
            value@ == Json::Object(models),
            strings::texts(sorted@) == order,
            order == ordering::sorted_set(keys, keys.len()),
            keys == models.map_values(|member: (Seq<char>, Json)| member.0),
            forall|text: Seq<char>|
                order.contains(text) <==> exists|i: int|
                    0 <= i < keys.len() && #[trigger] keys[i] == text,
            wanted == entry_rows(models, pointer@),
            row_models(rows@) == wanted.take(k as int),
        decreases sorted.len() - k,
    {
        let name = sorted[k].clone();
        assert(order[k as int] == name@);
        assert(order.contains(name@));
        proof {
            let j = choose|j: int| 0 <= j < keys.len() && #[trigger] keys[j] == name@;
            assert(models[j].0 == name@);
            lemma_member_is_there(models, name@, j);
        }
        match value.get(name.as_str()) {
            Some(member) => {
                let row = SelectedRow {
                    value: member.copy(),
                    entry: Some((name.clone(), member_pointer(pointer, name.as_str()))),
                };
                assert(wanted[k as int] == row@);
                push_row(&mut rows, row);
                assert(wanted.take(k + 1) =~= wanted.take(k as int).push(wanted[k as int]));
            },
            None => {
                assert(false);
            },
        }
        k += 1;
    }
    assert(wanted.take(k as int) =~= wanted);
    rows
}

proof fn lemma_member_is_there(members: Seq<(Seq<char>, Json)>, key: Seq<char>, k: int)
    requires
        0 <= k < members.len(),
        members[k].0 == key,
    ensures
        json::member_of(members, key) is Some,
    decreases members.len(),
{
    if members[0].0 != key {
        assert(members.drop_first()[k - 1] == members[k]);
        lemma_member_is_there(members.drop_first(), key, k - 1);
    }
}

/// Whether rows, or the fault instead of them, are those of a document.
pub open spec fn are_rows_of(
    rows: Result<Vec<SelectedRow>, JsonSelectFault>,
    document: Json,
    format: InputFormat,
    at: Option<Seq<char>>,
    entries: bool,
) -> bool {
    let wanted = document_rows(document, format, at, entries);
    match rows {
        Ok(rows) => wanted == Some(row_models(rows@)),
        Err(JsonSelectFault::AtMissing { selector }) => at == Some(selector@) && picked(
            document,
            selector@,
        ) is None,
        Err(JsonSelectFault::EntriesNeedRecord) => wanted is None && entries && at is None
            && format == InputFormat::Jsonl,
        Err(JsonSelectFault::EntriesNeedObject) => wanted is None && entries && selected_value(
            document,
            at,
        ) is Some && !(selected_value(document, at)->0 is Object),
        Err(_) => false,
    }
}

/// The rows of a document: an array that `at` selects, and JSONL, yield their
/// items; any other value is one row. With `entries`, the members of the selected
/// object are the rows.
pub fn select_rows(
    document: &JsonValue,
    format: InputFormat,
    at: &Option<String>,
    entries: bool,
) -> (rows: Result<Vec<SelectedRow>, JsonSelectFault>)
    ensures
        are_rows_of(rows, document@, format, optional_text(*at), entries),
{
    match at {
        None => rows_of_value(document, format, at, entries),
        Some(selector) => match pick(document, selector.as_str()) {
            Some(value) => rows_of_value(value, format, at, entries),
            None => Err(JsonSelectFault::AtMissing { selector: selector.clone() }),
        },
    }
}

/// Which records of a JSONL file a selector needs.
#[derive(Debug, Clone, Copy, PartialEq, Eq, Structural)]
pub enum RecordScope {
    /// All of them.
    Every,
    /// The record with this index alone.
    One(usize),
    /// None: it selects nothing in a list of records.
    Nothing,
}

/// Which records of a JSONL file a selector needs: a pointer starts with the index of
/// one, the empty pointer is all of them.
pub open spec fn scope_of(at: Option<Seq<char>>) -> RecordScope {
    match at {
        None => RecordScope::Every,
        Some(selector) => if selector.len() == 0 {
            RecordScope::Every
        } else if !json_pointer::is_pointer(selector) {
            RecordScope::Nothing
        } else {
            match json_pointer::pointer_tokens(selector) {
                Err(_) => RecordScope::Nothing,
                Ok(tokens) => if tokens.len() == 0 {
                    RecordScope::Nothing
                } else {
                    match numbers::unsigned_value(tokens[0], usize::MAX as int) {
                        Some(index) => RecordScope::One(index as usize),
                        None => RecordScope::Nothing,
                    }
                },
            }
        },
    }
}

/// Which records of a JSONL file a selector needs.
pub fn record_scope(at: &Option<String>) -> (scope: RecordScope)
    ensures
        scope == scope_of(optional_text(*at)),
{
    let selector = match at {
        None => {
            return RecordScope::Every;
        },
        Some(selector) => selector,
    };
    let chars = chars_of(selector.as_str());
    if chars.len() == 0 {
        return RecordScope::Every;
    }
    if chars[0] != '/' {
        return RecordScope::Nothing;
    }
    match parse_pointer(selector.as_str()) {
        Err(_) => RecordScope::Nothing,
        Ok(tokens) => {
            let ghost texts = strings::texts(tokens@);
            assert(texts.len() == tokens@.len());
            if tokens.len() == 0 {
                return RecordScope::Nothing;
            }
            assert(texts[0] == tokens@[0]@);
            match parse_usize(tokens[0].as_str()) {
                Some(index) => RecordScope::One(index),
                None => RecordScope::Nothing,
            }
        },
    }
}

pub open spec fn record_model(record: Option<&JsonValue>) -> Option<Json> {
    match record {
        Some(record) => Some(record@),
        None => None,
    }
}

/// Whether a record is the one that a selector needs of these.
pub open spec fn is_needed_record(
    record: Option<Json>,
    records: Seq<Json>,
    at: Seq<char>,
) -> bool {
    match scope_of(Some(at)) {
        RecordScope::Every => false,
        RecordScope::One(index) => record == if index < records.len() {
            Some(records[index as int])
        } else {
            None
        },
        RecordScope::Nothing => true,
    }
}

proof fn lemma_descend_below_first(tokens: Seq<Seq<char>>, i: int)
    requires
        1 <= i <= tokens.len(),
    ensures
        forall|value: Json| #[trigger] json_pointer::descend(value, tokens, i)
            == json_pointer::descend(value, tokens.skip(1), i - 1),
    decreases tokens.len() - i,
{
    if i < tokens.len() {
        lemma_descend_below_first(tokens, i + 1);
        assert(tokens.skip(1)[i - 1] == tokens[i]);
        assert forall|value: Json| #[trigger] json_pointer::descend(value, tokens, i)
            == json_pointer::descend(value, tokens.skip(1), i - 1) by {
            match json_pointer::child(value, tokens[i]) {
                Some(next) => {
                    assert(json_pointer::descend(next, tokens, i + 1) == json_pointer::descend(
                        next,
                        tokens.skip(1),
                        i,
                    ));
                },
                None => {},
            }
        }
    }
}

/// What a selector picks from records is known from the one that it needs.
proof fn lemma_picked_from_records(records: Seq<Json>, at: Seq<char>, record: Option<Json>)
    requires
        is_needed_record(record, records, at),
    ensures
        picked(Json::Array(records), at) == (match (scope_of(Some(at)), record) {
            (RecordScope::One(_), Some(record)) => json_pointer::descend(
                record,
                json_pointer::pointer_tokens(at)->Ok_0.skip(1),
                0,
            ),
            _ => None,
        }),
{
    if let RecordScope::One(index) = scope_of(Some(at)) {
        let tokens = json_pointer::pointer_tokens(at)->Ok_0;
        let spelled = numbers::unsigned_value(tokens[0], usize::MAX as int);
        numbers::lemma_unsigned_value_bounds(tokens[0], usize::MAX as int);
        assert(spelled == Some(index as int));
        lemma_descend_below_first(tokens, 1);
        let child = json_pointer::child(Json::Array(records), tokens[0]);
        assert(json_pointer::descend(Json::Array(records), tokens, 0) == match child {
            Some(next) => json_pointer::descend(next, tokens, 1),
            None => None,
        });
    } else if json_pointer::is_pointer(at) {
        match json_pointer::pointer_tokens(at) {
            Ok(tokens) => {
                json_pointer::lemma_pointer_has_tokens(at);
                assert(json_pointer::child(Json::Array(records), tokens[0]) is None);
            },
            Err(_) => {},
        }
    }
}

/// The rows of a JSONL file that a selector yields, from the one record that it needs:
/// the others can be read and forgotten.
pub fn select_record_rows(record: Option<&JsonValue>, at: &str, entries: bool) -> (rows: Result<
    Vec<SelectedRow>,
    JsonSelectFault,
>)
    ensures
        forall|records: Seq<Json>|
            #[trigger] is_needed_record(record_model(record), records, at@) ==> are_rows_of(
                rows,
                Json::Array(records),
                InputFormat::Jsonl,
                Some(at@),
                entries,
            ),
{
    let owned: Option<String> = Some(at.to_owned());
    let scope = record_scope(&owned);
    proof {
        assert forall|records: Seq<Json>|
            #[trigger] is_needed_record(record_model(record), records, at@) implies picked(
            Json::Array(records),
            at@,
        ) == (match (scope, record) {
            (RecordScope::One(_), Some(record)) => json_pointer::descend(
                record@,
                json_pointer::pointer_tokens(at@)->Ok_0.skip(1),
                0,
            ),
            _ => None,
        }) by {
            lemma_picked_from_records(records, at@, record_model(record));
        }
    }
    let missing = JsonSelectFault::AtMissing { selector: at.to_owned() };
    let record = match (scope, record) {
        (RecordScope::One(_), Some(record)) => record,
        _ => {
            return Err(missing);
        },
    };
    let tokens = match parse_pointer(at) {
        Ok(tokens) => tokens,
        Err(_) => {
            return Err(missing);
        },
    };
    let ghost texts = strings::texts(tokens@);
    let mut rest: Vec<String> = Vec::new();
    let mut i: usize = 1;
    assert(texts.len() == tokens@.len());
    assert(strings::texts(rest@) =~= texts.skip(1).take(0));
    while i < tokens.len()
        invariant
            1 <= i <= tokens@.len(),
            texts == strings::texts(tokens@),
            texts.len() == tokens@.len(),
            strings::texts(rest@) == texts.skip(1).take(i - 1),
        decreases tokens@.len() - i,
    {
        let ghost wanted = texts.skip(1);
        assert(wanted[i - 1] == tokens@[i as int]@);
        strings::push_text(&mut rest, tokens[i].clone());
        assert(wanted.take(i as int) =~= wanted.take(i - 1).push(wanted[i - 1]));
        i += 1;
    }
    assert(texts.skip(1).take(i - 1) =~= texts.skip(1));
    match descend_from(record, &rest) {
        Some(value) => rows_of_value(value, InputFormat::Jsonl, &owned, entries),
        None => Err(missing),
    }
}

/// The rows that a selected value yields.
fn rows_of_value(value: &JsonValue, format: InputFormat, at: &Option<String>, entries: bool) -> (rows:
    Result<Vec<SelectedRow>, JsonSelectFault>)
    ensures
        forall|document: Json|
            selected_value(document, optional_text(*at)) == Some(value@)
                ==> #[trigger] are_rows_of(rows, document, format, optional_text(*at), entries),
{
    if entries {
        return match value {
            JsonValue::Object(members) => {
                proof {
                    json::lemma_object_view(*members);
                }
                if at.is_none() && format == InputFormat::Jsonl {
                    Err(JsonSelectFault::EntriesNeedRecord)
                } else {
                    let pointer = match at {
                        None => String::new(),
                        Some(selector) => {
                            let chars = chars_of(selector.as_str());
                            if chars.len() == 0 || chars[0] == '/' {
                                selector.clone()
                            } else {
                                proof {
                                    reveal_strlit("");
                                    assert(""@ =~= Seq::empty());
                                }
                                member_pointer("", selector.as_str())
                            }
                        },
                    };
                    Ok(entries_of(value, members, pointer.as_str()))
                }
            },
            _ => {
                if at.is_none() && format == InputFormat::Jsonl {
                    Err(JsonSelectFault::EntriesNeedRecord)
                } else {
                    Err(JsonSelectFault::EntriesNeedObject)
                }
            },
        };
    }
    let mut rows: Vec<SelectedRow> = Vec::new();
    assert(row_models(rows@) =~= Seq::empty());
    match value {
        JsonValue::Array(items) => {
            proof {
                json::lemma_array_view(*items);
            }
            if at.is_some() || format == InputFormat::Jsonl {
                let ghost models = json::item_models(items@);
                let ghost wanted = plain_rows(models);
                let mut i: usize = 0;
                while i < items.len()
                    invariant
                        i <= items.len(),
                        models == json::item_models(items@),
                        wanted == plain_rows(models),
                        row_models(rows@) == wanted.take(i as int),
                    decreases items.len() - i,
                {
                    assert(models[i as int] == items@[i as int]@);
                    push_row(&mut rows, SelectedRow { value: items[i].copy(), entry: None });
                    assert(wanted.take(i + 1) =~= wanted.take(i as int).push(wanted[i as int]));
                    i += 1;
                }
                assert(wanted.take(i as int) =~= wanted);
                return Ok(rows);
            }
        },
        _ => {},
    }
    push_row(&mut rows, SelectedRow { value: value.copy(), entry: None });
    assert(row_models(rows@) =~= plain_rows(seq![value@]));
    Ok(rows)
}

/// What a selection has come to.
#[derive(Debug)]
pub struct JsonSelection {
    pub rows_scanned: usize,
    pub rows_matched: usize,
    pub kept: Vec<SelectedRow>,
    pub field_seen_non_null: Vec<bool>,
    pub key_stats: KeyStats,
    pub non_object_rows: usize,
}

/// The model of a selection.
#[verifier::ext_equal]
pub struct Selection {
    pub rows_scanned: nat,
    pub rows_matched: nat,
    pub kept: Seq<Row>,
    pub seen: Seq<bool>,
    pub table: KeyTable,
    pub non_object_rows: nat,
}

impl View for JsonSelection {
    type V = Selection;

    open spec fn view(&self) -> Selection {
        Selection {
            rows_scanned: self.rows_scanned as nat,
            rows_matched: self.rows_matched as nat,
            kept: row_models(self.kept@),
            seen: self.field_seen_non_null@,
            table: self.key_stats@,
            non_object_rows: self.non_object_rows as nat,
        }
    }
}

impl Selection {
    pub open spec fn start(watched: nat) -> Selection {
        Selection {
            rows_scanned: 0,
            rows_matched: 0,
            kept: Seq::empty(),
            seen: Seq::new(watched, |i: int| false),
            table: KeyTable { keys: Seq::empty(), counts: Seq::empty() },
            non_object_rows: 0,
        }
    }

    /// The selection once a row was looked at: it is scanned; if it meets the
    /// conditions it counts as matched, and either its keys are noted or, while
    /// there is room, it is kept.
    pub open spec fn consume(self, row: Row, request: JsonSelectRequest) -> Selection {
        let matched = meets_all(row.value, predicate_models(request.predicates@));
        Selection {
            rows_scanned: bumped(self.rows_scanned),
            rows_matched: if matched {
                bumped(self.rows_matched)
            } else {
                self.rows_matched
            },
            kept: if matched && !request.keys && self.kept.len() < request.show_rows {
                self.kept.push(row)
            } else {
                self.kept
            },
            seen: seen_after(row.value, strings::texts(request.audited@), self.seen),
            table: if matched && request.keys {
                match row.value {
                    Json::Object(members) => self.table.with_members(members, members.len()),
                    _ => self.table,
                }
            } else {
                self.table
            },
            non_object_rows: if matched && request.keys && !(row.value is Object) {
                bumped(self.non_object_rows)
            } else {
                self.non_object_rows
            },
        }
    }

    /// The selection once the first `n` rows were looked at.
    pub open spec fn of_rows(rows: Seq<Row>, request: JsonSelectRequest, n: nat) -> Selection
        decreases n,
    {
        if n == 0 || n > rows.len() {
            Selection::start(request.audited@.len())
        } else {
            Selection::of_rows(rows, request, (n - 1) as nat).consume(rows[n - 1], request)
        }
    }
}

impl JsonSelection {
    /// A selection that has seen no row.
    pub fn new(request: &JsonSelectRequest) -> (selection: JsonSelection)
        ensures
            selection@ == Selection::start(request.audited@.len()),
            selection@.table.well_formed(),
    {
        let mut seen: Vec<bool> = Vec::new();
        let mut i: usize = 0;
        while i < request.audited.len()
            invariant
                i <= request.audited.len(),
                seen@ == Seq::new(i as nat, |k: int| false),
            decreases request.audited.len() - i,
        {
            seen.push(false);
            i += 1;
            assert(seen@ =~= Seq::new(i as nat, |k: int| false));
        }
        let selection = JsonSelection {
            rows_scanned: 0,
            rows_matched: 0,
            kept: Vec::new(),
            field_seen_non_null: seen,
            key_stats: KeyStats::new(),
            non_object_rows: 0,
        };
        assert(selection@ =~= Selection::start(request.audited@.len()));
        selection
    }

    /// Looks at a row.
    pub fn consume_row(&mut self, row: SelectedRow, request: &JsonSelectRequest)
        requires
            old(self).field_seen_non_null@.len() == request.audited@.len(),
            old(self)@.table.well_formed(),
        ensures
            final(self)@ == old(self)@.consume(row@, *request),
            final(self).field_seen_non_null@.len() == request.audited@.len(),
            final(self)@.table.well_formed(),
    {
        self.rows_scanned = bump(self.rows_scanned);
        audit_fields(&row.value, &request.audited, &mut self.field_seen_non_null);
        if row_matches_predicates(&row.value, &request.predicates) {
            self.rows_matched = bump(self.rows_matched);
            if request.keys {
                collect_row_keys(&row.value, &mut self.key_stats, &mut self.non_object_rows);
            } else if self.kept.len() < request.show_rows {
                assert(row_models(self.kept@).len() == self.kept@.len());
                push_row(&mut self.kept, row);
            }
        }
        assert(row_models(self.kept@).len() == self.kept@.len());
        assert(self@ =~= old(self)@.consume(row@, *request));
    }
}

/// The selection from rows that are all at hand.
pub fn select_from_rows(rows: Vec<SelectedRow>, request: &JsonSelectRequest) -> (selection:
    JsonSelection)
    ensures
        selection@ == Selection::of_rows(row_models(rows@), *request, rows@.len()),
        selection@.table.well_formed(),
{
    let ghost models = row_models(rows@);
    let mut selection = JsonSelection::new(request);
    let mut i: usize = 0;
    while i < rows.len()
        invariant
            i <= rows.len(),
            models == row_models(rows@),
            selection.field_seen_non_null@.len() == request.audited@.len(),
            selection@.table.well_formed(),
            selection@ == Selection::of_rows(models, *request, i as nat),
        decreases rows.len() - i,
    {
        assert(models[i as int] == rows@[i as int]@);
        let row = SelectedRow {
            value: rows[i].value.copy(),
            entry: match &rows[i].entry {
                Some((key, pointer)) => Some((key.clone(), pointer.clone())),
                None => None,
            },
        };
        selection.consume_row(row, request);
        i += 1;
    }
    selection
}

/// The rows among the first `n` that meet the conditions, in order.
pub open spec fn matching(rows: Seq<Row>, predicates: Seq<Predicate>, n: nat) -> Seq<Row>
    decreases n,
{
    if n == 0 || n > rows.len() {
        Seq::empty()
    } else {
        let before = matching(rows, predicates, (n - 1) as nat);
        if meets_all(rows[n - 1].value, predicates) {
            before.push(rows[n - 1])
        } else {
            before
        }
    }
}

/// A selection counts every row and every matching row, and keeps the first
/// matching rows, as many as are to be shown.
pub proof fn selection_keeps_the_first_matches(
    rows: Seq<Row>,
    request: JsonSelectRequest,
    n: nat,
)
    requires
        n <= rows.len(),
        rows.len() <= usize::MAX,
    ensures
        ({
            let selection = Selection::of_rows(rows, request, n);
            let matches = matching(rows, predicate_models(request.predicates@), n);
            &&& selection.rows_scanned == n
            &&& selection.rows_matched == matches.len()
            &&& matches.len() <= n
            &&& !request.keys ==> selection.kept == (if matches.len() <= request.show_rows {
                matches
            } else {
                matches.take(request.show_rows as int)
            })
            &&& request.keys ==> selection.kept.len() == 0
        }),
    decreases n,
{
    if n > 0 {
        selection_keeps_the_first_matches(rows, request, (n - 1) as nat);
        let before = matching(rows, predicate_models(request.predicates@), (n - 1) as nat);
        let after = matching(rows, predicate_models(request.predicates@), n);
        let max = request.show_rows as int;
        if before.len() >= max {
            assert(after.take(max) =~= before.take(max));
            if before.len() == max {
                assert(before.take(max) =~= before);
            }
        } else if after.len() > before.len() {
            assert(after =~= before.push(rows[n - 1]));
        }
    }
}

/// A row meets an exact condition if and only if its field is there and the text of
/// the value, which for a string is its contents and for any other value its compact
/// form, is the expected text character for character.
pub proof fn exact_condition_is_equality(row: Json, predicate: Predicate)
    requires
        !predicate.contains,
    ensures
        picked(row, predicate.field) is None ==> !predicate.holds(row),
        picked(row, predicate.field) matches Some(Json::Text(text)) ==> (predicate.holds(row) <==> (
        text.len() == predicate.expected.len() && (forall|k: int|
            0 <= k < text.len() ==> text[k] == predicate.expected[k]))),
        picked(row, predicate.field) matches Some(value) ==> (!(value is Text) ==> (predicate.holds(
            row,
        ) <==> (json::compact(value).len() == predicate.expected.len() && (forall|k: int|
            0 <= k < json::compact(value).len() ==> json::compact(value)[k]
                == predicate.expected[k])))),
{
    match picked(row, predicate.field) {
        Some(value) => {
            let text = compared(value);
            if text.len() == predicate.expected.len() && (forall|k: int|
                0 <= k < text.len() ==> text[k] == predicate.expected[k]) {
                assert(text =~= predicate.expected);
            }
        },
        None => {},
    }
}

/// Two rows whose values at a field have different texts never both meet an exact
/// condition on it, while rows whose texts are the same meet the same conditions.
pub proof fn exact_conditions_tell_values_apart(a: Json, b: Json, predicate: Predicate)
    ensures
        !predicate.contains && predicate.holds(a) && predicate.holds(b) ==> compared(
            picked(a, predicate.field)->Some_0,
        ) == compared(picked(b, predicate.field)->Some_0),
        picked(a, predicate.field) is Some && picked(b, predicate.field) is Some && compared(
            picked(a, predicate.field)->Some_0,
        ) == compared(picked(b, predicate.field)->Some_0) ==> predicate.holds(a)
            == predicate.holds(b),
        predicate.holds(a) ==> picked(a, predicate.field) is Some,
{
}

/// A row meets a condition that asks for a part if and only if the text of its value
/// is the expected text with something, or nothing, before and behind it.
pub proof fn contains_condition_is_a_part(row: Json, predicate: Predicate)
    requires
        predicate.contains,
    ensures
        predicate.holds(row) <==> (exists|before: Seq<char>, behind: Seq<char>|
            picked(row, predicate.field) is Some && (match picked(row, predicate.field)->Some_0 {
                Json::Text(contents) => contents,
                value => json::compact(value),
            }) == #[trigger] (before + predicate.expected + behind)),
{
    if picked(row, predicate.field) is Some {
        strings::holding_is_a_split(
            compared(picked(row, predicate.field)->Some_0),
            predicate.expected,
        );
    }
}

/// A row meets a list of conditions together if and only if it meets each of them,
/// so that a further condition never lets a further row through.
pub proof fn conditions_narrow(row: Json, first: Seq<Predicate>, second: Seq<Predicate>)
    ensures
        meets_all(row, first + second) == (meets_all(row, first) && meets_all(row, second)),
        meets_all(row, Seq::empty()),
        forall|predicate: Predicate|
            meets_all(row, seq![predicate]) == #[trigger] predicate.holds(row),
{
    let both = first + second;
    if meets_all(row, both) {
        assert forall|i: int| 0 <= i < first.len() implies (#[trigger] first[i]).holds(row) by {
            assert(both[i] == first[i]);
        }
        assert forall|i: int| 0 <= i < second.len() implies (#[trigger] second[i]).holds(row) by {
            assert(both[first.len() + i] == second[i]);
        }
    }
    if meets_all(row, first) && meets_all(row, second) {
        assert forall|i: int| 0 <= i < both.len() implies (#[trigger] both[i]).holds(row) by {
            if i < first.len() {
                assert(both[i] == first[i]);
            } else {
                assert(both[i] == second[i - first.len()]);
            }
        }
    }
    assert forall|predicate: Predicate|
        meets_all(row, seq![predicate]) == #[trigger] predicate.holds(row) by {
        let one = seq![predicate];
        assert(one[0] == predicate);
    }
}

/// A condition is cut at its first `=`: what stands before it is the field, which must
/// not be empty, and all that stands behind it the expected text.
pub proof fn conditions_are_cut_at_the_first_equals(
    field: Seq<char>,
    expected: Seq<char>,
    contains: bool,
)
    requires
        !field.contains('='),
    ensures
        field.len() > 0 ==> predicate_of(field + seq!['='] + expected, contains) == Some(
            Predicate { field, expected, contains },
        ),
        predicate_of(seq!['='] + expected, contains) is None,
        predicate_of(field, contains) is None,
{
    let raw = field + seq!['='] + expected;
    strings::lemma_find_class_bounds(raw, CharClass::Only('='), 0);
    let at = strings::find_class(raw, CharClass::Only('='), 0);
    assert(raw[field.len() as int] == '=');
    if at < field.len() {
        assert(raw[at] == field[at]);
        assert(field.contains(field[at]));
    }
    assert(at == field.len());
    assert(raw.subrange(0, at) =~= field);
    assert(raw.subrange(at + 1, raw.len() as int) =~= expected);
    let bare = seq!['='] + expected;
    assert(bare[0] == '=');
    strings::lemma_find_class_bounds(field, CharClass::Only('='), 0);
    let none = strings::find_class(field, CharClass::Only('='), 0);
    if none < field.len() {
        assert(field.contains(field[none]));
    }
}

/// The fields that texts name are trimmed, not empty and without commas; what two lists
/// name is named by the one after what is named by the other.
pub proof fn fields_are_cut_at_commas(first: Seq<char>, second: Seq<char>)
    requires
        !first.contains(','),
    ensures
        field_parts(first + seq![','] + second, 0) == field_parts(first, 0) + field_parts(
            second,
            0,
        ),
        field_parts(first, 0) == if strings::trim(first).len() > 0 {
            seq![strings::trim(first)]
        } else {
            Seq::empty()
        },
{
    let both = first + seq![','] + second;
    let comma = CharClass::Only(',');
    strings::lemma_find_class_bounds(both, comma, 0);
    let at = strings::find_class(both, comma, 0);
    assert(both[first.len() as int] == ',');
    if at < first.len() {
        assert(both[at] == first[at]);
        assert(first.contains(first[at]));
    }
    assert(at == first.len());
    assert(both.subrange(0, at) =~= first);
    strings::lemma_find_class_bounds(first, comma, 0);
    let end = strings::find_class(first, comma, 0);
    if end < first.len() {
        assert(first.contains(first[end]));
    }
    assert(first.subrange(0, end) =~= first);
    assert(field_parts(first, end + 1) =~= Seq::empty());
    assert(both.skip(at + 1) =~= second);
    lemma_field_parts_shift(both, second, at + 1, 0);
    let part = strings::trim(first);
    if part.len() > 0 {
        assert(seq![part] + Seq::<Seq<char>>::empty() =~= seq![part]);
    }
    assert(field_parts(both, 0) =~= field_parts(first, 0) + field_parts(second, 0));
}

proof fn lemma_field_parts_shift(both: Seq<char>, second: Seq<char>, by: int, from: int)
    requires
        0 <= by <= both.len(),
        both.skip(by) == second,
        0 <= from <= second.len() + 1,
    ensures
        field_parts(both, by + from) == field_parts(second, from),
    decreases second.len() - from + 1,
{
    if from <= second.len() {
        let comma = CharClass::Only(',');
        lemma_find_shift(both, second, comma, by, from);
        strings::lemma_find_class_bounds(second, comma, from);
        let end = strings::find_class(second, comma, from);
        lemma_field_parts_shift(both, second, by, end + 1);
        assert(both.subrange(by + from, by + end) =~= second.subrange(from, end));
    }
}

proof fn lemma_find_shift(both: Seq<char>, second: Seq<char>, class: CharClass, by: int, from: int)
    requires
        0 <= by <= both.len(),
        both.skip(by) == second,
        0 <= from <= second.len(),
    ensures
        strings::find_class(both, class, by + from) == by + strings::find_class(second, class, from),
    decreases second.len() - from,
{
    if from < second.len() {
        assert(both[by + from] == second[from]);
        lemma_find_shift(both, second, class, by, from + 1);
    }
}

/// A watched field counts as seen if and only if some row so far has a value there that
/// is not null.
pub proof fn fields_are_seen_where_not_null(
    rows: Seq<Row>,
    request: JsonSelectRequest,
    n: nat,
    i: int,
)
    requires
        n <= rows.len(),
        0 <= i < request.audited@.len(),
    ensures
        Selection::of_rows(rows, request, n).seen.len() == request.audited@.len(),
        Selection::of_rows(rows, request, n).seen[i] <==> (exists|k: int|
            0 <= k < n && picked((#[trigger] rows[k]).value, request.audited@[i]@) is Some
                && picked(rows[k].value, request.audited@[i]@) != Some(Json::Null)),
    decreases n,
{
    assert(strings::texts(request.audited@)[i] == request.audited@[i]@);
    if n > 0 {
        fields_are_seen_where_not_null(rows, request, (n - 1) as nat, i);
    }
}

/// An array that is selected gives its items as rows, each once and in order; so do the
/// records of a file of records; and any other value is one row.
pub proof fn rows_are_the_items(
    document: Json,
    format: InputFormat,
    at: Option<Seq<char>>,
    items: Seq<Json>,
)
    ensures
        selected_value(document, at) == Some(Json::Array(items)) && (at is Some || format
            == InputFormat::Jsonl) ==> (document_rows(document, format, at, false) matches Some(rows)
            && rows.len() == items.len() && (forall|i: int|
            0 <= i < items.len() ==> (#[trigger] rows[i]).value == items[i] && rows[i].entry is None)),
        at is None && format == InputFormat::Json ==> (document_rows(document, format, at, false)
            matches Some(rows) && rows.len() == 1 && rows[0].value == document),
        selected_value(document, at) is None ==> document_rows(document, format, at, false) is None
            && document_rows(document, format, at, true) is None,
        selected_value(document, None) == Some(document),
{
}

/// The entries of an object are its members: every key is there once, in order, with its
/// value, and with the pointer below that of the object.
pub proof fn entries_are_the_members(
    members: Seq<(Seq<char>, Json)>,
    pointer: Seq<char>,
    i: int,
    m: int,
)
    requires
        forall|a: int, b: int|
            0 <= a < b < members.len() ==> (#[trigger] members[a]).0 != (#[trigger] members[b]).0,
        0 <= i < entry_rows(members, pointer).len(),
        0 <= m < members.len(),
    ensures
        ({
            let rows = entry_rows(members, pointer);
            &&& rows[i].entry matches Some((key, at)) && members.contains((key, rows[i].value))
                && at == json_pointer::below(pointer, key)
            &&& exists|k: int|
                0 <= k < rows.len() && (#[trigger] rows[k]) == (Row {
                    value: members[m].1,
                    entry: Some((members[m].0, json_pointer::below(pointer, members[m].0))),
                })
        }),
{
    let keys = members.map_values(|member: (Seq<char>, Json)| member.0);
    let sorted = ordering::sorted_set(keys, keys.len());
    let rows = entry_rows(members, pointer);
    ordering::lemma_sorted_set(keys, keys.len());
    let key = sorted[i];
    assert(sorted.contains(key));
    json::members_are_found_by_key(members, key);
    let from = choose|k: int| 0 <= k < keys.len() && keys[k] == key;
    assert(members[from].0 == key);
    let value = json::member_of(members, key)->0;
    let at = choose|k: int| 0 <= k < members.len() && #[trigger] members[k] == (key, value);
    assert(members.contains(members[at]));
    let wanted = members[m].0;
    assert(keys[m] == wanted);
    assert(sorted.contains(wanted));
    let k = sorted.index_of(wanted);
    json::members_are_found_by_key(members, wanted);
    let found = json::member_of(members, wanted)->0;
    let f = choose|f: int| 0 <= f < members.len() && #[trigger] members[f] == (wanted, found);
    if f < m {
        assert(members[f].0 != members[m].0);
    } else if m < f {
        assert(members[m].0 != members[f].0);
    }
    assert(rows[k] == (Row {
        value: members[m].1,
        entry: Some((wanted, json_pointer::below(pointer, wanted))),
    }));
}

/// Every value under a key counts as present, every one but null as not null, and its
/// type is noted and no other; the order in which values are seen does not matter.
pub proof fn values_are_counted_by_kind(count: KeyCount, value: Json, other: Json)
    requires
        count.types.len() == 6,
        count.present + 2 <= usize::MAX,
        count.non_null <= count.present,
    ensures
        count.with(value).present == count.present + 1,
        count.with(value).non_null == count.non_null + (if value is Null {
            0nat
        } else {
            1
        }),
        count.with(value).non_null <= count.with(value).present,
        count.with(value).with(other) == count.with(other).with(value),
        forall|k: int|
            0 <= k < 6 ==> #[trigger] count.with(value).types[k] == (count.types[k] || k == (
            match value {
                Json::Array(_) => 0int,
                Json::Bool(_) => 1,
                Json::Null => 2,
                Json::Number(_) => 3,
                Json::Object(_) => 4,
                Json::Text(_) => 5,
            })),
{
    assert(count.with(value).with(other).types =~= count.with(other).with(value).types);
}

} // verus!
