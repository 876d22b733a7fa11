//! Finding values in a JSON document by key, by pointer and by what they hold.
use vstd::prelude::*;

use crate::json;
use crate::json::{
    add_item, add_member, json_array, json_object, json_search_text, json_text, value_summary,
    Json, JsonValue,
};
use crate::json_input::InputFormat;
use crate::json_pointer;
use crate::json_pointer::{item_pointer, member_pointer};
use crate::numbers;
use crate::numbers::count_text;
use crate::output;
use crate::output::{Cap, Receipt, ReceiptCap, ReceiptCapBoundary, ReceiptModel, ReceiptResult};
use crate::strings;
use crate::strings::contains;
use crate::text;
use crate::text::{Pattern, RegexFault};

verus! {

/// What is looked for: every filter that is set has to hold.
pub struct JsonFindFilters {
    pub key_contains: Vec<String>,
    pub key_regex: Option<Pattern>,
    pub pointer_contains: Vec<String>,
    pub pointer_regex: Option<Pattern>,
    pub value_contains: Vec<String>,
}

/// The model of the filters.
pub struct Filters {
    pub key_contains: Seq<Seq<char>>,
    pub key_regex: Option<(Seq<char>, bool)>,
    pub pointer_contains: Seq<Seq<char>>,
    pub pointer_regex: Option<(Seq<char>, bool)>,
    pub value_contains: Seq<Seq<char>>,
}

/// A value in a document: its pointer, its key if it is a member, and itself.
pub struct Visit {
    pub pointer: Seq<char>,
    pub key: Option<Seq<char>>,
    pub value: Json,
}

pub open spec fn source_of(compiled: Option<Pattern>) -> Option<(Seq<char>, bool)> {
    match compiled {
        Some(compiled) => Some(text::pattern_source(compiled)),
        None => None,
    }
}

pub open spec fn holds_all(text: Seq<char>, needles: Seq<Seq<char>>) -> bool {
    forall|i: int| 0 <= i < needles.len() ==> strings::contains_text(text, #[trigger] needles[i])
}

impl View for JsonFindFilters {
    type V = Filters;

    open spec fn view(&self) -> Filters {
        Filters {
            key_contains: strings::texts(self.key_contains@),
            key_regex: source_of(self.key_regex),
            pointer_contains: strings::texts(self.pointer_contains@),
            pointer_regex: source_of(self.pointer_regex),
            value_contains: strings::texts(self.value_contains@),
        }
    }
}

impl Filters {
    /// Whether a value passes every filter. A value that is no member passes no
    /// filter on keys.
    pub open spec fn passes(self, visit: Visit) -> bool {
        &&& self.key_regex matches Some(source) ==> (visit.key is Some && text::regex_matches(
            source,
            visit.key->0,
        ))
        &&& self.key_contains.len() > 0 ==> (visit.key is Some && holds_all(
            visit.key->0,
            self.key_contains,
        ))
        &&& self.pointer_regex matches Some(source) ==> text::regex_matches(source, visit.pointer)
        &&& holds_all(visit.pointer, self.pointer_contains)
        &&& holds_all(json::search_text(visit.value), self.value_contains)
    }

    /// The visits that pass, in order.
    pub open spec fn admitted(self, visits: Seq<Visit>) -> Seq<Visit>
        decreases visits.len(),
    {
        if visits.len() == 0 {
            Seq::empty()
        } else {
            let before = self.admitted(visits.drop_last());
            if self.passes(visits.last()) {
                before.push(visits.last())
            } else {
                before
            }
        }
    }

    /// No filter is set.
    pub open spec fn is_empty(self) -> bool {
        &&& self.key_contains.len() == 0
        &&& self.key_regex is None
        &&& self.pointer_contains.len() == 0
        &&& self.pointer_regex is None
        &&& self.value_contains.len() == 0
    }
}

/// The value and everything below it, each before what is below it.
pub open spec fn visits(pointer: Seq<char>, key: Option<Seq<char>>, value: Json) -> Seq<Visit>
    decreases value, 0nat,
{
    seq![Visit { pointer, key, value }] + match value {
        Json::Object(members) => member_visits(pointer, members, members.len()),
        Json::Array(items) => item_visits(pointer, items, items.len()),
        _ => Seq::empty(),
    }
}

/// What is in the first `n` members.
pub open spec fn member_visits(
    pointer: Seq<char>,
    members: Seq<(Seq<char>, Json)>,
    n: nat,
) -> Seq<Visit>
    decreases members, n,
{
    if n == 0 || n > members.len() {
        Seq::empty()
    } else {
        let (key, value) = members[n - 1];
        member_visits(pointer, members, (n - 1) as nat) + visits(
            json_pointer::below(pointer, key),
            Some(key),
            members[n - 1].1,
        )
    }
}

/// What is in the first `n` items.
pub open spec fn item_visits(pointer: Seq<char>, items: Seq<Json>, n: nat) -> Seq<Visit>
    decreases items, n,
{
    if n == 0 || n > items.len() {
        Seq::empty()
    } else {
        item_visits(pointer, items, (n - 1) as nat) + visits(
            json_pointer::below(pointer, numbers::decimal((n - 1) as nat)),
            None,
            items[n - 1],
        )
    }
}

/// Every value of a document.
pub open spec fn document_visits(document: Json) -> Seq<Visit> {
    visits(Seq::empty(), None, document)
}

/// What was found: how many values there are, and the rows for the first of
/// them.
#[derive(Debug)]
pub struct JsonMatches {
    pub total: usize,
    pub rows: Vec<(String, String)>,
    /// Whether a value in a row was cut.
    pub values_truncated: bool,
}

/// A count, or the largest that a machine word holds.
pub open spec fn counted(n: nat) -> nat {
    if n <= usize::MAX {
        n
    } else {
        usize::MAX as nat
    }
}

/// The first `max` of the matches.
pub open spec fn shown(matches: Seq<Visit>, max: nat) -> Seq<Visit> {
    if matches.len() <= max {
        matches
    } else {
        matches.take(max as int)
    }
}

pub open spec fn row_texts(rows: Seq<(String, String)>) -> Seq<(Seq<char>, Seq<char>)> {
    rows.map_values(|row: (String, String)| (row.0@, row.1@))
}

/// The row for a match: its pointer, and the summary of its value.
pub open spec fn row_of(visit: Visit, max_chars: nat) -> (Seq<char>, Seq<char>) {
    (visit.pointer, output::clamped(json::summary(visit.value), max_chars))
}

impl JsonMatches {
    /// Whether this is what is shown of the given matches.
    pub open spec fn shows(&self, matches: Seq<Visit>, max: nat, max_chars: nat) -> bool {
        &&& self.total == counted(matches.len())
        &&& row_texts(self.rows@) == shown(matches, max).map_values(
            |visit: Visit| row_of(visit, max_chars),
        )
        &&& self.values_truncated == exists|i: int|
            0 <= i < shown(matches, max).len() && json::summary(
                (#[trigger] shown(matches, max)[i]).value,
            ).len() > max_chars
    }
}

/// Why nothing is looked for.
#[derive(Debug)]
pub enum JsonFindFault {
    NoMatches,
    NoValueChars,
    NoFilter,
    BadKeyRegex(String),
    BadPointerRegex(String),
}

impl JsonFindFault {
    pub fn message(&self) -> (message: String)
        ensures
            message@ == match self {
                JsonFindFault::NoMatches => "json-find --show-matches must be greater than zero"@,
                JsonFindFault::NoValueChars =>
                    "json-find --show-value-chars must be greater than zero"@,
                JsonFindFault::NoFilter =>
                    "json-find requires --key-contains, --key-regex, --pointer-contains, --pointer-regex, or --value-contains"@,
                JsonFindFault::BadKeyRegex(detail) => "invalid key regex: "@ + detail@,
                JsonFindFault::BadPointerRegex(detail) => "invalid pointer regex: "@ + detail@,
            },
    {
        match self {
            JsonFindFault::NoMatches =>
                "json-find --show-matches must be greater than zero".to_owned(),
            JsonFindFault::NoValueChars =>
                "json-find --show-value-chars must be greater than zero".to_owned(),
            JsonFindFault::NoFilter =>
                "json-find requires --key-contains, --key-regex, --pointer-contains, --pointer-regex, or --value-contains".to_owned(),
            JsonFindFault::BadKeyRegex(detail) => "invalid key regex: ".to_owned().concat(
                detail.as_str(),
            ),
            JsonFindFault::BadPointerRegex(detail) => "invalid pointer regex: ".to_owned().concat(
                detail.as_str(),
            ),
        }
    }
}

pub open spec fn regex_fault(pattern: Option<Seq<char>>) -> Option<Seq<char>> {
    match pattern {
        Some(pattern) => text::regex_error((pattern, false)),
        None => None,
    }
}

pub open spec fn case_sensitive(pattern: Option<Seq<char>>) -> Option<(Seq<char>, bool)> {
    match pattern {
        Some(pattern) => Some((pattern, false)),
        None => None,
    }
}

fn compile_optional(pattern: Option<&str>) -> (compiled: Result<Option<Pattern>, String>)
    ensures
        match compiled {
            Ok(compiled) => source_of(compiled) == case_sensitive(strings::opt_text(pattern))
                && regex_fault(strings::opt_text(pattern)) is None,
            Err(detail) => pattern is Some && (regex_fault(
                strings::opt_text(pattern),
            ) matches Some(fault) ==> detail@ == fault),
        },
{
    match pattern {
        None => Ok(None),
        Some(pattern) => match Pattern::new(pattern, false) {
            Ok(compiled) => Ok(Some(compiled)),
            Err(RegexFault::Syntax { detail }) | Err(RegexFault::TooLarge { detail }) => Err(
                detail,
            ),
        },
    }
}

/// The filters of a request. At least one has to be set, and something has to be
/// shown. An expression is refused only where it is too large.
pub fn json_find_filters(
    key_contains: Vec<String>,
    key_regex: Option<&str>,
    pointer_contains: Vec<String>,
    pointer_regex: Option<&str>,
    value_contains: Vec<String>,
    show_matches: usize,
    show_value_chars: usize,
) -> (filters: Result<JsonFindFilters, JsonFindFault>)
    ensures
        ({
            let wanted = Filters {
                key_contains: strings::texts(key_contains@),
                key_regex: case_sensitive(strings::opt_text(key_regex)),
                pointer_contains: strings::texts(pointer_contains@),
                pointer_regex: case_sensitive(strings::opt_text(pointer_regex)),
                value_contains: strings::texts(value_contains@),
            };
            let key_fault = regex_fault(strings::opt_text(key_regex));
            let pointer_fault = regex_fault(strings::opt_text(pointer_regex));
            if show_matches == 0 {
                filters matches Err(JsonFindFault::NoMatches)
            } else if show_value_chars == 0 {
                filters matches Err(JsonFindFault::NoValueChars)
            } else if wanted.is_empty() {
                filters matches Err(JsonFindFault::NoFilter)
            } else {
                match filters {
                    Ok(filters) => {
                        &&& filters@ == wanted
                        &&& key_fault is None
                        &&& pointer_fault is None
                    },
                    Err(JsonFindFault::BadKeyRegex(detail)) => {
                        &&& key_regex is Some
                        &&& key_fault is Some ==> detail@ == key_fault->0
                    },
                    Err(JsonFindFault::BadPointerRegex(detail)) => {
                        &&& key_fault is None
                        &&& pointer_regex is Some
                        &&& pointer_fault is Some ==> detail@ == pointer_fault->0
                    },
                    Err(_) => false,
                }
            }
        }),
{
    if show_matches == 0 {
        return Err(JsonFindFault::NoMatches);
    }
    if show_value_chars == 0 {
        return Err(JsonFindFault::NoValueChars);
    }
    if key_contains.len() == 0 && key_regex.is_none() && pointer_contains.len() == 0
        && pointer_regex.is_none() && value_contains.len() == 0 {
        return Err(JsonFindFault::NoFilter);
    }
    assert(strings::texts(key_contains@).len() == key_contains@.len());
    assert(strings::texts(pointer_contains@).len() == pointer_contains@.len());
    assert(strings::texts(value_contains@).len() == value_contains@.len());
    let key_regex = match compile_optional(key_regex) {
        Ok(compiled) => compiled,
        Err(detail) => {
            return Err(JsonFindFault::BadKeyRegex(detail));
        },
    };
    let pointer_regex = match compile_optional(pointer_regex) {
        Ok(compiled) => compiled,
        Err(detail) => {
            return Err(JsonFindFault::BadPointerRegex(detail));
        },
    };
    Ok(JsonFindFilters { key_contains, key_regex, pointer_contains, pointer_regex, value_contains })
}

/// Whether a text holds every needle.
pub fn contains_all(value: &str, needles: &[String]) -> (held: bool)
    ensures
        held == holds_all(value@, strings::texts(needles@)),
{
    let ghost all = strings::texts(needles@);
    let mut i: usize = 0;
    while i < needles.len()
        invariant
            i <= needles.len(),
            all == strings::texts(needles@),
            forall|k: int| 0 <= k < i ==> strings::contains_text(value@, #[trigger] all[k]),
        decreases needles.len() - i,
    {
        assert(all[i as int] == needles@[i as int]@);
        if !contains(value, needles[i].as_str()) {
            return false;
        }
        i += 1;
    }
    true
}

/// Whether a text holds one of the needles.
pub fn contains_any(value: &str, needles: &[String]) -> (held: bool)
    ensures
        held == exists|i: int|
            0 <= i < needles@.len() && strings::contains_text(
                value@,
                #[trigger] strings::texts(needles@)[i],
            ),
{
    let ghost all = strings::texts(needles@);
    let mut i: usize = 0;
    while i < needles.len()
        invariant
            i <= needles.len(),
            all == strings::texts(needles@),
            forall|k: int| 0 <= k < i ==> !strings::contains_text(value@, #[trigger] all[k]),
        decreases needles.len() - i,
    {
        assert(all[i as int] == needles@[i as int]@);
        if contains(value, needles[i].as_str()) {
            return true;
        }
        i += 1;
    }
    false
}

impl JsonFindFilters {
    /// Whether a value passes every filter.
    pub fn admits(&self, pointer: &str, key: Option<&str>, value: &JsonValue) -> (held: bool)
        ensures
            held == self@.passes(
                Visit {
                    pointer: pointer@,
                    key: strings::opt_text(key),
                    value: value@,
                },
            ),
    {
        assert(strings::texts(self.key_contains@).len() == self.key_contains@.len());
        if let Some(compiled) = &self.key_regex {
            match key {
                None => {
                    return false;
                },
                Some(key) => {
                    if !compiled.is_match(key) {
                        return false;
                    }
                },
            }
        }
        if self.key_contains.len() > 0 {
            match key {
                None => {
                    return false;
                },
                Some(key) => {
                    if !contains_all(key, &self.key_contains) {
                        return false;
                    }
                },
            }
        }
        if let Some(compiled) = &self.pointer_regex {
            if !compiled.is_match(pointer) {
                return false;
            }
        }
        if !contains_all(pointer, &self.pointer_contains) {
            return false;
        }
        contains_all(json_search_text(value).as_str(), &self.value_contains)
    }
}

proof fn lemma_admitted_concat(filters: Filters, a: Seq<Visit>, b: Seq<Visit>)
    ensures
        filters.admitted(a + b) == filters.admitted(a) + filters.admitted(b),
    decreases b.len(),
{
    if b.len() == 0 {
        assert(a + b =~= a);
        assert(filters.admitted(a) + filters.admitted(b) =~= filters.admitted(a));
    } else {
        assert((a + b).drop_last() =~= a + b.drop_last());
        lemma_admitted_concat(filters, a, b.drop_last());
        assert(filters.admitted(a + b) =~= filters.admitted(a) + filters.admitted(b));
    }
}

/// Adds a value to what was found if it passes the filters.
fn visit_value(
    pointer: &str,
    key: Option<&str>,
    value: &JsonValue,
    filters: &JsonFindFilters,
    max: usize,
    max_chars: usize,
    found: &mut JsonMatches,
    Ghost(before): Ghost<Seq<Visit>>,
)
    requires
        old(found).shows(before, max as nat, max_chars as nat),
    ensures
        final(found).shows(
            before + filters@.admitted(
                seq![Visit { pointer: pointer@, key: strings::opt_text(key), value: value@ }],
            ),
            max as nat,
            max_chars as nat,
        ),
{
    let ghost visit = Visit { pointer: pointer@, key: strings::opt_text(key), value: value@ };
    let ghost one = filters@.admitted(seq![visit]);
    proof {
        assert(seq![visit].drop_last() =~= Seq::empty());
        assert(filters@.admitted(seq![visit].drop_last()) =~= Seq::empty());
    }
    if !filters.admits(pointer, key, value) {
        assert(before + one =~= before);
        return;
    }
    assert(one =~= seq![visit]);
    let ghost after = before + one;
    assert(after =~= before.push(visit));
    if found.total < usize::MAX {
        found.total += 1;
    }
    assert(found.rows@.len() == row_texts(found.rows@).len());
    if found.rows.len() < max {
        let summary = value_summary(value, max_chars);
        found.values_truncated = found.values_truncated || summary.truncated;
        let ghost rows = found.rows@;
        let row = (pointer.to_owned(), summary.text);
        found.rows.push(row);
        assert(shown(before, max as nat) =~= before);
        assert(shown(after, max as nat) =~= after);
        assert(row_texts(found.rows@) =~= row_texts(rows).push((row.0@, row.1@)));
        assert(row_texts(found.rows@) =~= after.map_values(
            |visit: Visit| row_of(visit, max_chars as nat),
        ));
        assert(after[before.len() as int] == visit);
        assert forall|i: int| 0 <= i < before.len() implies after[i] == before[i] by {}
        proof {
            let old_cut = exists|i: int|
                0 <= i < before.len() && json::summary((#[trigger] before[i]).value).len()
                    > max_chars;
            if old_cut {
                let i = choose|i: int|
                    0 <= i < before.len() && json::summary((#[trigger] before[i]).value).len()
                        > max_chars;
                assert(json::summary(after[i].value).len() > max_chars);
            }
        }
    } else {
        assert(shown(after, max as nat) =~= shown(before, max as nat));
    }
}

/// Adds what is in a value, itself first, to what was found.
fn walk_json(
    pointer: &str,
    key: Option<&str>,
    value: &JsonValue,
    filters: &JsonFindFilters,
    max: usize,
    max_chars: usize,
    found: &mut JsonMatches,
    Ghost(before): Ghost<Seq<Visit>>,
)
    requires
        old(found).shows(before, max as nat, max_chars as nat),
    ensures
        final(found).shows(
            before + filters@.admitted(visits(pointer@, strings::opt_text(key), value@)),
            max as nat,
            max_chars as nat,
        ),
    decreases value,
{
    let ghost visit = Visit { pointer: pointer@, key: strings::opt_text(key), value: value@ };
    let ghost head = seq![visit];
    visit_value(pointer, key, value, filters, max, max_chars, found, Ghost(before));
    let ghost with_head = before + filters@.admitted(head);
    match value {
        JsonValue::Object(members) => {
            proof {
                json::lemma_object_view(*members);
            }
            let ghost models = json::member_models(members@);
            let mut i: usize = 0;
            assert(filters@.admitted(member_visits(pointer@, models, 0)) =~= Seq::empty());
            assert(with_head + filters@.admitted(member_visits(pointer@, models, 0))
                =~= with_head);
            while i < members.len()
                invariant
                    i <= members.len(),
                    value == JsonValue::Object(*members),
                    value@ == Json::Object(models),
                    models == json::member_models(members@),
                    found.shows(
                        with_head + filters@.admitted(member_visits(pointer@, models, i as nat)),
                        max as nat,
                        max_chars as nat,
                    ),
                decreases members.len() - i,
            {
                assert(models[i as int] == (members@[i as int].0@, members@[i as int].1@));
                let ghost sofar = with_head + filters@.admitted(
                    member_visits(pointer@, models, i as nat),
                );
                let child = member_pointer(pointer, members[i].0.as_str());
                walk_json(
                    child.as_str(),
                    Some(members[i].0.as_str()),
                    &members[i].1,
                    filters,
                    max,
                    max_chars,
                    found,
                    Ghost(sofar),
                );
                proof {
                    let more = visits(child@, Some(models[i as int].0), models[i as int].1);
                    lemma_admitted_concat(
                        filters@,
                        member_visits(pointer@, models, i as nat),
                        more,
                    );
                    assert(sofar + filters@.admitted(more) =~= with_head + filters@.admitted(
                        member_visits(pointer@, models, (i + 1) as nat),
                    ));
                }
                i += 1;
            }
            proof {
                let rest = member_visits(pointer@, models, models.len());
                lemma_admitted_concat(filters@, head, rest);
                assert(before + filters@.admitted(head + rest) =~= with_head + filters@.admitted(
                    rest,
                ));
            }
        },
        JsonValue::Array(items) => {
            proof {
                json::lemma_array_view(*items);
            }
            let ghost models = json::item_models(items@);
            let mut i: usize = 0;
            assert(filters@.admitted(item_visits(pointer@, models, 0)) =~= Seq::empty());
            assert(with_head + filters@.admitted(item_visits(pointer@, models, 0)) =~= with_head);
            while i < items.len()
                invariant
                    i <= items.len(),
                    value == JsonValue::Array(*items),
                    value@ == Json::Array(models),
                    models == json::item_models(items@),
                    found.shows(
                        with_head + filters@.admitted(item_visits(pointer@, models, i as nat)),
                        max as nat,
                        max_chars as nat,
                    ),
                decreases items.len() - i,
            {
                assert(models[i as int] == items@[i as int]@);
                let ghost sofar = with_head + filters@.admitted(
                    item_visits(pointer@, models, i as nat),
                );
                let child = item_pointer(pointer, i);
                walk_json(
                    child.as_str(),
                    None,
                    &items[i],
                    filters,
                    max,
                    max_chars,
                    found,
                    Ghost(sofar),
                );
                proof {
                    let more = visits(child@, None, models[i as int]);
                    lemma_admitted_concat(filters@, item_visits(pointer@, models, i as nat), more);
                    assert(sofar + filters@.admitted(more) =~= with_head + filters@.admitted(
                        item_visits(pointer@, models, (i + 1) as nat),
                    ));
                }
                i += 1;
            }
            proof {
                let rest = item_visits(pointer@, models, models.len());
                lemma_admitted_concat(filters@, head, rest);
                assert(before + filters@.admitted(head + rest) =~= with_head + filters@.admitted(
                    rest,
                ));
            }
        },
        _ => {
            assert(visits(pointer@, strings::opt_text(key), value@) =~= head);
        },
    }
}

/// Finds the values of a document that pass the filters.
pub fn json_find(
    document: &JsonValue,
    filters: &JsonFindFilters,
    show_matches: usize,
    show_value_chars: usize,
) -> (found: JsonMatches)
    ensures
        found.shows(
            filters@.admitted(document_visits(document@)),
            show_matches as nat,
            show_value_chars as nat,
        ),
{
    let mut found = JsonMatches { total: 0, rows: Vec::new(), values_truncated: false };
    let ghost none = Seq::<Visit>::empty();
    assert(row_texts(found.rows@) =~= none.map_values(
        |visit: Visit| row_of(visit, show_value_chars as nat),
    ));
    assert(shown(none, show_matches as nat) =~= none);
    walk_json(
        "",
        None,
        document,
        filters,
        show_matches,
        show_value_chars,
        &mut found,
        Ghost(none),
    );
    proof {
        reveal_strlit("");
        assert(""@ =~= Seq::empty());
        let all = filters@.admitted(document_visits(document@));
        assert(none + all =~= all);
    }
    found
}

/// The JSON row of a match.
pub open spec fn match_json(row: (Seq<char>, Seq<char>)) -> Json {
    Json::Object(seq![("path"@, Json::Text(row.0)), ("value"@, Json::Text(row.1))])
}

/// The caps of a search that showed so many of its matches.
pub open spec fn find_caps(
    rows: nat,
    total: nat,
    values_truncated: bool,
    show_matches: nat,
    show_value_chars: nat,
) -> Seq<Cap> {
    (if rows < total {
        seq![
            Cap {
                boundary: ReceiptCapBoundary::Output,
                dimension: "matches"@,
                limit: Some(show_matches),
                argument: Some("--show-matches"@),
            },
        ]
    } else {
        Seq::empty()
    }) + (if values_truncated {
        seq![
            Cap {
                boundary: ReceiptCapBoundary::Output,
                dimension: "value_characters"@,
                limit: Some(show_value_chars),
                argument: Some("--show-value-chars"@),
            },
        ]
    } else {
        Seq::empty()
    })
}

pub open spec fn format_name(format: InputFormat) -> Seq<char> {
    match format {
        InputFormat::Json => "json"@,
        InputFormat::Jsonl => "jsonl"@,
    }
}

impl JsonMatches {
    /// The receipt of the search; `with_rows` puts the rows into it.
    pub fn receipt(
        &self,
        profile: Option<&str>,
        path: &str,
        format: InputFormat,
        show_matches: usize,
        show_value_chars: usize,
        with_rows: bool,
    ) -> (receipt: Receipt)
        requires
            self.rows@.len() <= self.total,
        ensures
            receipt.model() == (ReceiptModel {
                command: "json-find"@,
                profile: strings::opt_text(profile),
                result: output::ResultCount {
                    unit: "matches"@,
                    total: self.total as nat,
                    total_is_lower_bound: false,
                    shown: self.rows@.len(),
                },
                caps: find_caps(
                    self.rows@.len(),
                    self.total as nat,
                    self.values_truncated,
                    show_matches as nat,
                    show_value_chars as nat,
                ),
                fields: seq![
                    ("path"@, Json::Text(path@)),
                    ("input_format"@, Json::Text(format_name(format))),
                ] + (if with_rows {
                    seq![
                        (
                            "matches"@,
                            Json::Array(
                                row_texts(self.rows@).map_values(
                                    |row: (Seq<char>, Seq<char>)| match_json(row),
                                ),
                            ),
                        ),
                    ]
                } else {
                    Seq::empty()
                }),
            }),
    {
        let mut receipt = Receipt::new(
            "json-find",
            profile,
            ReceiptResult::new("matches", self.total, false, self.rows.len()),
        );
        if self.rows.len() < self.total {
            receipt.add_cap(ReceiptCap::output("matches", Some(show_matches), "--show-matches"));
        }
        if self.values_truncated {
            receipt.add_cap(
                ReceiptCap::output(
                    "value_characters",
                    Some(show_value_chars),
                    "--show-value-chars",
                ),
            );
        }
        proof {
            reveal_strlit("path");
            reveal_strlit("input_format");
            reveal_strlit("matches");
            lemma_field_names();
        }
        receipt.insert("path", json_text(path));
        receipt.insert("input_format", json_text(format.name()));
        if with_rows {
            let ghost texts = row_texts(self.rows@);
            let ghost wanted = texts.map_values(|row: (Seq<char>, Seq<char>)| match_json(row));
            let mut rows: Vec<JsonValue> = Vec::new();
            let mut i: usize = 0;
            while i < self.rows.len()
                invariant
                    i <= self.rows.len(),
                    texts == row_texts(self.rows@),
                    wanted == texts.map_values(|row: (Seq<char>, Seq<char>)| match_json(row)),
                    json::item_models(rows@) == wanted.take(i as int),
                decreases self.rows.len() - i,
            {
                let mut members: Vec<(String, JsonValue)> = Vec::new();
                add_member(&mut members, "path", json_text(self.rows[i].0.as_str()));
                add_member(&mut members, "value", json_text(self.rows[i].1.as_str()));
                let row = json_object(members);
                assert(texts[i as int] == (self.rows@[i as int].0@, self.rows@[i as int].1@));
                assert(row@->Object_0 =~= match_json(texts[i as int])->Object_0);
                add_item(&mut rows, row);
                assert(wanted.take(i + 1) =~= wanted.take(i as int).push(wanted[i as int]));
                i += 1;
            }
            assert(wanted.take(i as int) =~= wanted);
            receipt.insert("matches", json_array(rows));
        }
        assert(receipt.model().caps =~= find_caps(
            self.rows@.len(),
            self.total as nat,
            self.values_truncated,
            show_matches as nat,
            show_value_chars as nat,
        ));
        receipt
    }

    /// The lines of the search.
    pub fn lines(&self, show_matches: usize) -> (lines: Vec<String>)
        ensures
            strings::texts(lines@) == (if self.rows@.len() == 0 {
                seq!["no_matches"@]
            } else {
                row_texts(self.rows@).map_values(
                    |row: (Seq<char>, Seq<char>)| row.0 + " = "@ + row.1,
                )
            }) + (if self.rows@.len() < self.total {
                seq![
                    "[contextmink] capped json matches at "@ + numbers::decimal(
                        show_matches as nat,
                    ) + "; narrow the selector."@,
                ]
            } else {
                Seq::empty()
            }),
    {
        let ghost texts = row_texts(self.rows@);
        let ghost wanted = texts.map_values(|row: (Seq<char>, Seq<char>)| row.0 + " = "@ + row.1);
        let mut lines: Vec<String> = Vec::new();
        let mut i: usize = 0;
        while i < self.rows.len()
            invariant
                i <= self.rows.len(),
                texts == row_texts(self.rows@),
                wanted == texts.map_values(
                    |row: (Seq<char>, Seq<char>)| row.0 + " = "@ + row.1,
                ),
                strings::texts(lines@) == wanted.take(i as int),
            decreases self.rows.len() - i,
        {
            let ghost before = lines@;
            let line = self.rows[i].0.clone().concat(" = ").concat(self.rows[i].1.as_str());
            assert(texts[i as int] == (self.rows@[i as int].0@, self.rows@[i as int].1@));
            lines.push(line);
            assert(strings::texts(lines@) =~= strings::texts(before).push(line@));
            assert(wanted.take(i + 1) =~= wanted.take(i as int).push(wanted[i as int]));
            i += 1;
        }
        assert(wanted.take(i as int) =~= wanted);
        if self.rows.len() == 0 {
            let line = "no_matches".to_owned();
            lines.push(line);
            assert(strings::texts(lines@) =~= seq!["no_matches"@]);
        }
        if self.rows.len() < self.total {
            let ghost before = lines@;
            let line = "[contextmink] capped json matches at ".to_owned().concat(
                count_text(show_matches).as_str(),
            ).concat("; narrow the selector.");
            lines.push(line);
            assert(strings::texts(lines@) =~= strings::texts(before).push(line@));
        }
        assert(strings::texts(lines@) =~= (if self.rows@.len() == 0 {
            seq!["no_matches"@]
        } else {
            wanted
        }) + (if self.rows@.len() < self.total {
            seq![
                "[contextmink] capped json matches at "@ + numbers::decimal(show_matches as nat)
                    + "; narrow the selector."@,
            ]
        } else {
            Seq::empty()
        }));
        lines
    }
}

/// The names of the receipt's own fields are all different from these.
proof fn lemma_field_names()
    ensures
        !output::is_reserved("path"@),
        !output::is_reserved("input_format"@),
        !output::is_reserved("matches"@),
        "path"@ != "input_format"@,
        "path"@ != "matches"@,
        "input_format"@ != "matches"@,
{
    reveal_strlit("path");
    reveal_strlit("input_format");
    reveal_strlit("matches");
    reveal_strlit("schema");
    reveal_strlit("tool");
    reveal_strlit("command");
    reveal_strlit("profile");
    reveal_strlit("duration_ms");
    reveal_strlit("scope_complete");
    reveal_strlit("output_truncated");
    reveal_strlit("complete");
    reveal_strlit("caps");
    reveal_strlit("result");
    reveal_strlit("output_cap_arguments");
    assert("path"@[0] == 'p' && "path"@[1] == 'a');
    assert("tool"@[0] == 't');
    assert("matches"@[0] == 'm');
    assert("command"@[0] == 'c');
    assert("profile"@[1] == 'r');
    assert("input_format"@.len() == 12);
}

/// The pointer of every value that is visited in a document addresses that value:
/// what a search shows can be handed back as a selector.
pub proof fn pointers_address_their_values(document: Json, i: int)
    requires
        json::addressable(document),
        0 <= i < document_visits(document).len(),
    ensures
        json_pointer::looked_up(document, document_visits(document)[i].pointer) == Ok::<
            Option<Json>,
            json_pointer::PointerFault,
        >(Some(document_visits(document)[i].value)),
{
    assert(json_pointer::looked_up(document, Seq::empty()) == Ok::<
        Option<Json>,
        json_pointer::PointerFault,
    >(Some(document)));
    lemma_visits_address(document, Seq::empty(), None, document);
}

spec fn addresses(document: Json, visits: Seq<Visit>) -> bool {
    forall|i: int|
        0 <= i < visits.len() ==> json_pointer::looked_up(
            document,
            (#[trigger] visits[i]).pointer,
        ) == Ok::<Option<Json>, json_pointer::PointerFault>(Some(visits[i].value))
}

proof fn lemma_visits_address(
    document: Json,
    pointer: Seq<char>,
    key: Option<Seq<char>>,
    value: Json,
)
    requires
        json::addressable(value),
        json_pointer::looked_up(document, pointer) == Ok::<
            Option<Json>,
            json_pointer::PointerFault,
        >(Some(value)),
    ensures
        addresses(document, visits(pointer, key, value)),
    decreases value, 0nat,
{
    match value {
        Json::Object(members) => {
            lemma_member_visits_address(document, pointer, value, members, members.len());
        },
        Json::Array(items) => {
            lemma_item_visits_address(document, pointer, value, items, items.len());
        },
        _ => {},
    }
}

proof fn lemma_member_found(members: Seq<(Seq<char>, Json)>, k: int)
    requires
        0 <= k < members.len(),
        forall|i: int, j: int|
            0 <= i < j < members.len() ==> (#[trigger] members[i]).0 != (#[trigger] members[j]).0,
    ensures
        json::member_of(members, members[k].0) == Some(members[k].1),
    decreases members.len(),
{
    if k > 0 {
        let rest = members.drop_first();
        assert(members[0].0 != members[k].0);
        assert(rest[k - 1] == members[k]);
        assert forall|i: int, j: int| 0 <= i < j < rest.len() implies (#[trigger] rest[i]).0 != (
        #[trigger] rest[j]).0 by {
            assert(rest[i] == members[i + 1]);
            assert(rest[j] == members[j + 1]);
        }
        lemma_member_found(rest, k - 1);
    }
}

proof fn lemma_member_visits_address(
    document: Json,
    pointer: Seq<char>,
    value: Json,
    members: Seq<(Seq<char>, Json)>,
    n: nat,
)
    requires
        value == Json::Object(members),
        json::addressable(value),
        n <= members.len(),
        json_pointer::looked_up(document, pointer) == Ok::<
            Option<Json>,
            json_pointer::PointerFault,
        >(Some(value)),
    ensures
        addresses(document, member_visits(pointer, members, n)),
    decreases members, n,
{
    if n > 0 {
        lemma_member_visits_address(document, pointer, value, members, (n - 1) as nat);
        let (key, item) = members[n - 1];
        lemma_member_found(members, n - 1);
        json_pointer::lookup_composes(document, pointer, key, value);
        assert(json::addressable(members[n - 1].1));
        lemma_visits_address(
            document,
            json_pointer::below(pointer, key),
            Some(key),
            members[n - 1].1,
        );
    }
}

proof fn lemma_item_visits_address(
    document: Json,
    pointer: Seq<char>,
    value: Json,
    items: Seq<Json>,
    n: nat,
)
    requires
        value == Json::Array(items),
        json::addressable(value),
        n <= items.len(),
        json_pointer::looked_up(document, pointer) == Ok::<
            Option<Json>,
            json_pointer::PointerFault,
        >(Some(value)),
    ensures
        addresses(document, item_visits(pointer, items, n)),
    decreases items, n,
{
    if n > 0 {
        lemma_item_visits_address(document, pointer, value, items, (n - 1) as nat);
        let token = numbers::decimal((n - 1) as nat);
        numbers::lemma_decimal_reads_back((n - 1) as nat);
        assert(strings::is_digit(token[0]));
        assert(json_pointer::child(value, token) == Some(items[n - 1]));
        json_pointer::lookup_composes(document, pointer, token, value);
        assert(json::addressable(items[n - 1]));
        lemma_visits_address(document, json_pointer::below(pointer, token), None, items[n - 1]);
    }
}

/// A value passes two sets of filters together if and only if it passes each of them: a
/// further filter never lets a further value through, and no filter stops none.
pub proof fn filters_narrow(first: Filters, second: Filters, both: Filters, visit: Visit)
    requires
        both.key_contains == first.key_contains + second.key_contains,
        both.pointer_contains == first.pointer_contains + second.pointer_contains,
        both.value_contains == first.value_contains + second.value_contains,
        first.key_regex is None || second.key_regex is None,
        both.key_regex == if first.key_regex is Some {
            first.key_regex
        } else {
            second.key_regex
        },
        first.pointer_regex is None || second.pointer_regex is None,
        both.pointer_regex == if first.pointer_regex is Some {
            first.pointer_regex
        } else {
            second.pointer_regex
        },
    ensures
        both.passes(visit) == (first.passes(visit) && second.passes(visit)),
        first.is_empty() ==> first.passes(visit),
{
    lemma_holds_both(visit.pointer, first.pointer_contains, second.pointer_contains);
    lemma_holds_both(
        json::search_text(visit.value),
        first.value_contains,
        second.value_contains,
    );
    if visit.key is Some {
        lemma_holds_both(visit.key->0, first.key_contains, second.key_contains);
    }
}

proof fn lemma_holds_both(text: Seq<char>, first: Seq<Seq<char>>, second: Seq<Seq<char>>)
    ensures
        holds_all(text, first + second) == (holds_all(text, first) && holds_all(text, second)),
{
    let both = first + second;
    assert forall|i: int| 0 <= i < both.len() implies #[trigger] both[i] == if i < first.len() {
        first[i]
    } else {
        second[i - first.len()]
    } by {}
    assert forall|i: int| 0 <= i < first.len() implies #[trigger] first[i] == both[i] by {}
    assert forall|i: int| 0 <= i < second.len() implies #[trigger] second[i] == both[first.len()
        + i] by {}
}

/// Each single filter of a kind holds of every value that passes: its key holds each of
/// the parts that keys are to hold and matches the expression for keys, and likewise its
/// pointer and the text of its value.
pub proof fn passing_values_meet_each_filter(filters: Filters, visit: Visit, i: int)
    requires
        filters.passes(visit),
    ensures
        0 <= i < filters.key_contains.len() ==> visit.key is Some && text::is_around(
            visit.key->0,
            filters.key_contains[i],
        ),
        filters.key_regex matches Some(source) ==> visit.key is Some && text::regex_matches(
            source,
            visit.key->0,
        ),
        0 <= i < filters.pointer_contains.len() ==> text::is_around(
            visit.pointer,
            filters.pointer_contains[i],
        ),
        filters.pointer_regex matches Some(source) ==> text::regex_matches(source, visit.pointer),
        0 <= i < filters.value_contains.len() ==> text::is_around(
            match visit.value {
                Json::Text(contents) => contents,
                value => json::summary(value),
            },
            filters.value_contains[i],
        ),
{
    if 0 <= i < filters.key_contains.len() {
        strings::holding_is_a_split(visit.key->0, filters.key_contains[i]);
    }
    if 0 <= i < filters.pointer_contains.len() {
        strings::holding_is_a_split(visit.pointer, filters.pointer_contains[i]);
    }
    if 0 <= i < filters.value_contains.len() {
        strings::holding_is_a_split(json::search_text(visit.value), filters.value_contains[i]);
    }
}

/// A filter for one part lets through exactly the values whose text holds it.
pub proof fn single_filters_admit_what_they_say(filters: Filters, visit: Visit, part: Seq<char>)
    requires
        filters.key_regex is None,
        filters.pointer_regex is None,
    ensures
        filters.value_contains == seq![part] && filters.key_contains.len() == 0
            && filters.pointer_contains.len() == 0 ==> filters.passes(visit) == text::is_around(
            match visit.value {
                Json::Text(contents) => contents,
                value => json::summary(value),
            },
            part,
        ),
        filters.pointer_contains == seq![part] && filters.key_contains.len() == 0
            && filters.value_contains.len() == 0 ==> filters.passes(visit) == text::is_around(
            visit.pointer,
            part,
        ),
        filters.key_contains == seq![part] && filters.pointer_contains.len() == 0
            && filters.value_contains.len() == 0 ==> filters.passes(visit) == (visit.key is Some
            && text::is_around(visit.key->0, part)),
{
    strings::holding_is_a_split(json::search_text(visit.value), part);
    strings::holding_is_a_split(visit.pointer, part);
    if visit.key is Some {
        strings::holding_is_a_split(visit.key->0, part);
    }
    let one = seq![part];
    assert(one[0] == part);
}

/// A search admits exactly the visits that pass, each as often as it occurs and in their
/// order.
pub proof fn every_passing_value_is_admitted(filters: Filters, a: Seq<Visit>, b: Seq<Visit>)
    ensures
        filters.admitted(a + b) == filters.admitted(a) + filters.admitted(b),
        filters.admitted(Seq::empty()) == Seq::<Visit>::empty(),
        forall|visit: Visit|
            #[trigger] filters.admitted(seq![visit]) == if filters.passes(visit) {
                seq![visit]
            } else {
                Seq::empty()
            },
{
    lemma_admitted_concat(filters, a, b);
    assert forall|visit: Visit|
        #[trigger] filters.admitted(seq![visit]) == if filters.passes(visit) {
            seq![visit]
        } else {
            Seq::empty()
        } by {
        assert(seq![visit].drop_last() =~= Seq::empty());
        assert(Seq::<Visit>::empty().push(visit) =~= seq![visit]);
        assert(filters.admitted(Seq::<Visit>::empty()) =~= Seq::empty());
    }
}

/// Every value that tokens lead to from a document is visited.
pub proof fn every_value_is_visited(document: Json, tokens: Seq<Seq<char>>)
    requires
        json_pointer::descend(document, tokens, 0) is Some,
    ensures
        exists|i: int|
            0 <= i < document_visits(document).len() && (#[trigger] document_visits(
                document,
            )[i]).value == json_pointer::descend(document, tokens, 0)->0,
{
    lemma_descended_is_visited(Seq::empty(), None, document, tokens, 0);
    let i = choose|i: int|
        0 <= i < visits(Seq::empty(), None, document).len() && (#[trigger] visits(
            Seq::empty(),
            None,
            document,
        )[i]).value == json_pointer::descend(document, tokens, 0)->0;
    assert(document_visits(document)[i].value == json_pointer::descend(document, tokens, 0)->0);
}

proof fn lemma_descended_is_visited(
    pointer: Seq<char>,
    key: Option<Seq<char>>,
    value: Json,
    tokens: Seq<Seq<char>>,
    i: int,
)
    requires
        0 <= i <= tokens.len(),
        json_pointer::descend(value, tokens, i) is Some,
    ensures
        exists|k: int|
            0 <= k < visits(pointer, key, value).len() && (#[trigger] visits(
                pointer,
                key,
                value,
            )[k]).value == json_pointer::descend(value, tokens, i)->0,
    decreases tokens.len() - i,
{
    let all = visits(pointer, key, value);
    if i == tokens.len() {
        assert(all[0].value == value);
    } else {
        let next = json_pointer::child(value, tokens[i])->0;
        let found = json_pointer::descend(value, tokens, i)->0;
        match value {
            Json::Object(members) => {
                json::members_are_found_by_key(members, tokens[i]);
                let m = choose|m: int|
                    0 <= m < members.len() && #[trigger] members[m] == (tokens[i], next);
                let below = json_pointer::below(pointer, members[m].0);
                lemma_descended_is_visited(below, Some(members[m].0), next, tokens, i + 1);
                let k = choose|k: int|
                    0 <= k < visits(below, Some(members[m].0), next).len() && (#[trigger] visits(
                        below,
                        Some(members[m].0),
                        next,
                    )[k]).value == found;
                let at = lemma_member_is_visited(pointer, members, m, members.len(), k);
                assert(all[at + 1].value == found);
            },
            Json::Array(items) => {
                let m = numbers::unsigned_value(tokens[i], usize::MAX as int)->0;
                numbers::lemma_unsigned_value_bounds(tokens[i], usize::MAX as int);
                let below = json_pointer::below(pointer, numbers::decimal(m as nat));
                lemma_descended_is_visited(below, None, next, tokens, i + 1);
                let k = choose|k: int|
                    0 <= k < visits(below, None, next).len() && (#[trigger] visits(
                        below,
                        None,
                        next,
                    )[k]).value == found;
                let at = lemma_item_is_visited(pointer, items, m, items.len(), k);
                assert(all[at + 1].value == found);
            },
            _ => {},
        }
    }
}

proof fn lemma_member_is_visited(
    pointer: Seq<char>,
    members: Seq<(Seq<char>, Json)>,
    m: int,
    n: nat,
    k: int,
) -> (at: int)
    requires
        0 <= m < n <= members.len(),
        0 <= k < visits(
            json_pointer::below(pointer, members[m].0),
            Some(members[m].0),
            members[m].1,
        ).len(),
    ensures
        0 <= at < member_visits(pointer, members, n).len(),
        member_visits(pointer, members, n)[at] == visits(
            json_pointer::below(pointer, members[m].0),
            Some(members[m].0),
            members[m].1,
        )[k],
    decreases n,
{
    let before = member_visits(pointer, members, (n - 1) as nat);
    if m == n - 1 {
        before.len() + k
    } else {
        lemma_member_is_visited(pointer, members, m, (n - 1) as nat, k)
    }
}

proof fn lemma_item_is_visited(pointer: Seq<char>, items: Seq<Json>, m: int, n: nat, k: int) -> (at:
    int)
    requires
        0 <= m < n <= items.len(),
        0 <= k < visits(
            json_pointer::below(pointer, numbers::decimal(m as nat)),
            None,
            items[m],
        ).len(),
    ensures
        0 <= at < item_visits(pointer, items, n).len(),
        item_visits(pointer, items, n)[at] == visits(
            json_pointer::below(pointer, numbers::decimal(m as nat)),
            None,
            items[m],
        )[k],
    decreases n,
{
    let before = item_visits(pointer, items, (n - 1) as nat);
    if m == n - 1 {
        before.len() + k
    } else {
        lemma_item_is_visited(pointer, items, m, (n - 1) as nat, k)
    }
}

/// The characters of the strings among visited values.
pub open spec fn string_characters(visits: Seq<Visit>) -> nat
    decreases visits.len(),
{
    if visits.len() == 0 {
        0
    } else {
        string_characters(visits.drop_last()) + match visits.last().value {
            Json::Text(text) => text.len(),
            _ => 0,
        }
    }
}

/// A value is written out whole if and only if neither the number of values in it,
/// itself one of them, nor that of the characters of its strings passes its limit.
pub proof fn small_values_are_written_out(value: Json)
    ensures
        json::is_small(value) <==> document_visits(value).len() <= json::JSON_SMALL_NODE_LIMIT
            && string_characters(document_visits(value)) <= json::JSON_SMALL_STRING_CHAR_LIMIT,
{
    lemma_counted(Seq::empty(), None, value, 0, 0);
}

proof fn lemma_characters_joined(a: Seq<Visit>, b: Seq<Visit>)
    ensures
        string_characters(a + b) == string_characters(a) + string_characters(b),
    decreases b.len(),
{
    if b.len() > 0 {
        assert((a + b).drop_last() =~= a + b.drop_last());
        lemma_characters_joined(a, b.drop_last());
    } else {
        assert(a + b =~= a);
    }
}

/// Whether counts are those of this much more, or no longer kept.
spec fn is_count(
    counts: Option<(nat, nat)>,
    nodes: nat,
    characters: nat,
    visits: Seq<Visit>,
) -> bool {
    let more = nodes + visits.len();
    let longer = characters + string_characters(visits);
    if more <= json::JSON_SMALL_NODE_LIMIT && longer <= json::JSON_SMALL_STRING_CHAR_LIMIT {
        counts == Some((more, longer))
    } else {
        counts is None
    }
}

proof fn lemma_counted(
    pointer: Seq<char>,
    key: Option<Seq<char>>,
    value: Json,
    nodes: nat,
    characters: nat,
)
    requires
        nodes <= json::JSON_SMALL_NODE_LIMIT,
        characters <= json::JSON_SMALL_STRING_CHAR_LIMIT,
    ensures
        is_count(json::counted(value, nodes, characters), nodes, characters, visits(pointer, key, value)),
    decreases value, 0nat,
{
    let first = seq![Visit { pointer, key, value }];
    assert(first.drop_last() =~= Seq::empty());
    assert(string_characters(first.drop_last()) == 0);
    assert(string_characters(first) == match value {
        Json::Text(text) => text.len(),
        _ => 0,
    });
    let rest = match value {
        Json::Object(members) => member_visits(pointer, members, members.len()),
        Json::Array(items) => item_visits(pointer, items, items.len()),
        _ => Seq::empty(),
    };
    lemma_characters_joined(first, rest);
    match value {
        Json::Object(members) => {
            if nodes + 1 <= json::JSON_SMALL_NODE_LIMIT {
                lemma_counted_members(pointer, members, nodes + 1, characters, members.len());
            }
        },
        Json::Array(items) => {
            if nodes + 1 <= json::JSON_SMALL_NODE_LIMIT {
                lemma_counted_items(pointer, items, nodes + 1, characters, items.len());
            }
        },
        _ => {
            assert(string_characters(rest) == 0);
        },
    }
}

proof fn lemma_counted_members(
    pointer: Seq<char>,
    members: Seq<(Seq<char>, Json)>,
    nodes: nat,
    characters: nat,
    n: nat,
)
    requires
        n <= members.len(),
        nodes <= json::JSON_SMALL_NODE_LIMIT,
        characters <= json::JSON_SMALL_STRING_CHAR_LIMIT,
    ensures
        is_count(
            json::counted_members(members, nodes, characters, n),
            nodes,
            characters,
            member_visits(pointer, members, n),
        ),
    decreases members, n,
{
    if n > 0 {
        lemma_counted_members(pointer, members, nodes, characters, (n - 1) as nat);
        let before = member_visits(pointer, members, (n - 1) as nat);
        let below = json_pointer::below(pointer, members[n - 1].0);
        let last = visits(below, Some(members[n - 1].0), members[n - 1].1);
        lemma_characters_joined(before, last);
        match json::counted_members(members, nodes, characters, (n - 1) as nat) {
            Some((nodes, characters)) => {
                lemma_counted(
                    below,
                    Some(members[n - 1].0),
                    members[n - 1].1,
                    nodes,
                    characters,
                );
            },
            None => {},
        }
    } else {
        assert(string_characters(Seq::<Visit>::empty()) == 0);
    }
}

proof fn lemma_counted_items(
    pointer: Seq<char>,
    items: Seq<Json>,
    nodes: nat,
    characters: nat,
    n: nat,
)
    requires
        n <= items.len(),
        nodes <= json::JSON_SMALL_NODE_LIMIT,
        characters <= json::JSON_SMALL_STRING_CHAR_LIMIT,
    ensures
        is_count(
            json::counted_items(items, nodes, characters, n),
            nodes,
            characters,
            item_visits(pointer, items, n),
        ),
    decreases items, n,
{
    if n > 0 {
        lemma_counted_items(pointer, items, nodes, characters, (n - 1) as nat);
        let before = item_visits(pointer, items, (n - 1) as nat);
        let below = json_pointer::below(pointer, numbers::decimal((n - 1) as nat));
        let last = visits(below, None, items[n - 1]);
        lemma_characters_joined(before, last);
        match json::counted_items(items, nodes, characters, (n - 1) as nat) {
            Some((nodes, characters)) => {
                lemma_counted(below, None, items[n - 1], nodes, characters);
            },
            None => {},
        }
    } else {
        assert(string_characters(Seq::<Visit>::empty()) == 0);
    }
}

/// A search whose receipt names no limit shows every match, no value of it cut.
pub proof fn unlimited_search_shows_every_match(
    matches: Seq<Visit>,
    max: nat,
    max_chars: nat,
    values_truncated: bool,
    i: int,
)
    requires
        matches.len() <= usize::MAX,
        values_truncated == exists|k: int|
            0 <= k < shown(matches, max).len() && json::summary(
                (#[trigger] shown(matches, max)[k]).value,
            ).len() > max_chars,
        find_caps(
            shown(matches, max).len(),
            counted(matches.len()),
            values_truncated,
            max,
            max_chars,
        ).len() == 0,
        0 <= i < matches.len(),
    ensures
        shown(matches, max) == matches,
        row_of(matches[i], max_chars) == (matches[i].pointer, json::summary(matches[i].value)),
{
    assert(shown(matches, max)[i] == matches[i]);
}

} // verus!
