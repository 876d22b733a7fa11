//! What a command shows and the receipt that says what it left out.
use vstd::prelude::*;

use crate::json;
use crate::json::{
    add_item, add_member, json_array, json_count, json_number, json_object, json_optional_text,
    json_text, json_texts, Json, JsonValue,
};
use crate::numbers;
use crate::strings;
use crate::strings::{chars_of, same_text};

verus! {

pub const RECEIPT_PREFIX: &'static str = "CONTEXTMINK_RECEIPT ";

pub const RECEIPT_SCHEMA: &'static str = "contextmink.receipt.v2";

/// A text that may have been cut.
#[derive(Debug, Clone, PartialEq, Eq)]
pub struct ClampedText {
    pub text: String,
    pub truncated: bool,
}

/// A text cut to a number of characters; the last of them are dots where
/// something was cut off.
pub open spec fn clamped(text: Seq<char>, max: nat) -> Seq<char> {
    if text.len() <= max {
        text
    } else if max <= 3 {
        Seq::new(max, |i: int| '.')
    } else {
        text.take(max - 3) + seq!['.', '.', '.']
    }
}

/// What is shown of a text never exceeds the limit, keeps what stands before the
/// cut, and is the text itself exactly where the text fits. Cutting once more
/// changes nothing.
pub proof fn clamping_is_bounded(text: Seq<char>, max: nat)
    ensures
        clamped(text, max).len() <= max,
        (clamped(text, max) == text) == (text.len() <= max),
        max > 3 ==> clamped(text, max).take(max - 3) =~= text.take(max - 3) || text.len() <= max,
        clamped(clamped(text, max), max) == clamped(text, max),
{
    if text.len() > max {
        assert(clamped(text, max).len() != text.len());
    }
}

pub fn clamp_text_with_status(value: &str, max_chars: usize) -> (cut: ClampedText)
    ensures
        cut.text@ == clamped(value@, max_chars as nat),
        cut.truncated == (value@.len() > max_chars),
{
    let chars = chars_of(value);
    if chars.len() <= max_chars {
        return ClampedText { text: value.to_owned(), truncated: false };
    }
    let mut text = String::new();
    if max_chars <= 3 {
        let mut i: usize = 0;
        while i < max_chars
            invariant
                i <= max_chars,
                text@ == Seq::new(i as nat, |k: int| '.'),
            decreases max_chars - i,
        {
            text.push('.');
            i += 1;
            assert(text@ =~= Seq::new(i as nat, |k: int| '.'));
        }
    } else {
        text = strings::cut_string(&chars, 0, max_chars - 3);
        text.push('.');
        text.push('.');
        text.push('.');
        assert(text@ =~= clamped(value@, max_chars as nat));
    }
    ClampedText { text, truncated: true }
}

/// A text cut to a number of characters.
pub fn clamp_text(value: &str, max_chars: usize) -> (text: String)
    ensures
        text@ == clamped(value@, max_chars as nat),
{
    clamp_text_with_status(value, max_chars).text
}

/// What a cap bounds.
#[derive(Debug, Clone, Copy, PartialEq, Eq, Structural)]
pub enum ReceiptCapBoundary {
    /// What was looked at: totals are lower bounds.
    Scope,
    /// What was shown of what was found.
    Output,
}

/// Texts cut to length.
pub open spec fn clamp_all(list: Seq<Seq<char>>, max: nat) -> Seq<Seq<char>> {
    list.map_values(|text: Seq<char>| clamped(text, max))
}

/// Whether one of the texts is longer than the limit.
pub open spec fn some_is_longer(list: Seq<Seq<char>>, max: nat) -> bool {
    exists|i: int| 0 <= i < list.len() && (#[trigger] list[i]).len() > max
}

/// Texts cut to length, and whether one of them was cut.
pub fn clamp_texts(list: &[String], max_chars: usize) -> (clamped: (Vec<String>, bool))
    ensures
        strings::texts(clamped.0@) == clamp_all(strings::texts(list@), max_chars as nat),
        clamped.1 == some_is_longer(strings::texts(list@), max_chars as nat),
{
    let ghost given = strings::texts(list@);
    let ghost wanted = clamp_all(given, max_chars as nat);
    let mut cut: Vec<String> = Vec::new();
    let mut longer = false;
    let mut i: usize = 0;
    assert(strings::texts(cut@) =~= wanted.take(0));
    while i < list.len()
        invariant
            i <= list.len(),
            given == strings::texts(list@),
            wanted == clamp_all(given, max_chars as nat),
            strings::texts(cut@) == wanted.take(i as int),
            longer == exists|k: int| 0 <= k < i && (#[trigger] given[k]).len() > max_chars,
        decreases list.len() - i,
    {
        assert(given[i as int] == list@[i as int]@);
        let status = clamp_text_with_status(list[i].as_str(), max_chars);
        longer = longer || status.truncated;
        strings::push_text(&mut cut, status.text);
        assert(wanted.take(i + 1) =~= wanted.take(i as int).push(wanted[i as int]));
        i += 1;
    }
    assert(wanted.take(i as int) =~= wanted);
    (cut, longer)
}

/// A limit that was reached.
#[derive(Debug, Clone)]
pub struct ReceiptCap {
    pub boundary: ReceiptCapBoundary,
    pub dimension: &'static str,
    pub limit: Option<u64>,
    /// The command-line argument that controls the limit, for an output cap.
    pub argument: Option<&'static str>,
}

/// The model of a cap.
pub struct Cap {
    pub boundary: ReceiptCapBoundary,
    pub dimension: Seq<char>,
    pub limit: Option<nat>,
    pub argument: Option<Seq<char>>,
}

pub open spec fn limit_of(limit: Option<usize>) -> Option<nat> {
    match limit {
        Some(limit) => Some(limit as nat),
        None => None,
    }
}

impl ReceiptCap {
    pub open spec fn model(&self) -> Cap {
        Cap {
            boundary: self.boundary,
            dimension: self.dimension@,
            limit: match self.limit {
                Some(limit) => Some(limit as nat),
                None => None,
            },
            argument: match self.argument {
                Some(argument) => Some(argument@),
                None => None,
            },
        }
    }

    /// A cap on what was looked at.
    pub fn scope(dimension: &'static str, limit: Option<usize>) -> (cap: ReceiptCap)
        ensures
            cap.model() == (Cap {
                boundary: ReceiptCapBoundary::Scope,
                dimension: dimension@,
                limit: limit_of(limit),
                argument: None,
            }),
    {
        ReceiptCap {
            boundary: ReceiptCapBoundary::Scope,
            dimension,
            limit: match limit {
                Some(limit) => Some(limit as u64),
                None => None,
            },
            argument: None,
        }
    }

    /// A cap on the bytes that were looked at.
    pub fn scope_bytes(dimension: &'static str, limit: u64) -> (cap: ReceiptCap)
        ensures
            cap.model() == (Cap {
                boundary: ReceiptCapBoundary::Scope,
                dimension: dimension@,
                limit: Some(limit as nat),
                argument: None,
            }),
    {
        ReceiptCap {
            boundary: ReceiptCapBoundary::Scope,
            dimension,
            limit: Some(limit),
            argument: None,
        }
    }

    /// A cap on what was shown, and the argument that sets it.
    pub fn output(
        dimension: &'static str,
        limit: Option<usize>,
        argument: &'static str,
    ) -> (cap: ReceiptCap)
        ensures
            cap.model() == (Cap {
                boundary: ReceiptCapBoundary::Output,
                dimension: dimension@,
                limit: limit_of(limit),
                argument: Some(argument@),
            }),
    {
        ReceiptCap {
            boundary: ReceiptCapBoundary::Output,
            dimension,
            limit: match limit {
                Some(limit) => Some(limit as u64),
                None => None,
            },
            argument: Some(argument),
        }
    }
}

/// A cap, where it was reached.
pub open spec fn when(reached: bool, cap: Cap) -> Seq<Cap> {
    if reached {
        seq![cap]
    } else {
        Seq::empty()
    }
}

pub open spec fn scope_cap(dimension: Seq<char>, limit: nat) -> Cap {
    Cap { boundary: ReceiptCapBoundary::Scope, dimension, limit: Some(limit), argument: None }
}

pub open spec fn output_cap(dimension: Seq<char>, limit: nat, argument: Seq<char>) -> Cap {
    Cap {
        boundary: ReceiptCapBoundary::Output,
        dimension,
        limit: Some(limit),
        argument: Some(argument),
    }
}

/// Cuts texts to one limit and remembers whether anything was cut.
#[derive(Debug)]
pub struct TextClamp {
    pub max_chars: usize,
    pub truncated: bool,
    pub argument: &'static str,
}

impl TextClamp {
    pub fn new(max_chars: usize, argument: &'static str) -> (clamp: TextClamp)
        ensures
            clamp.max_chars == max_chars,
            !clamp.truncated,
            clamp.argument == argument,
    {
        TextClamp { max_chars, truncated: false, argument }
    }

    /// The text cut to the limit.
    pub fn clamp(&mut self, value: &str) -> (text: String)
        ensures
            text@ == clamped(value@, old(self).max_chars as nat),
            final(self).truncated == (old(self).truncated || value@.len() > old(self).max_chars),
            final(self).max_chars == old(self).max_chars,
            final(self).argument == old(self).argument,
    {
        let cut = clamp_text_with_status(value, self.max_chars);
        self.truncated = self.truncated || cut.truncated;
        cut.text
    }

    /// Notes a cut that was made elsewhere.
    pub fn record_truncated(&mut self, truncated: bool)
        ensures
            final(self).truncated == (old(self).truncated || truncated),
            final(self).max_chars == old(self).max_chars,
            final(self).argument == old(self).argument,
    {
        self.truncated = self.truncated || truncated;
    }

    pub fn was_truncated(&self) -> (truncated: bool)
        ensures
            truncated == self.truncated,
    {
        self.truncated
    }

    /// Adds the cap to the receipt where something was cut.
    pub fn add_receipt_cap(&self, receipt: &mut Receipt)
        ensures
            final(receipt).model() == (if self.truncated {
                old(receipt).model().with_cap(
                    Cap {
                        boundary: ReceiptCapBoundary::Output,
                        dimension: "line_characters"@,
                        limit: Some(self.max_chars as nat),
                        argument: Some(self.argument@),
                    },
                )
            } else {
                old(receipt).model()
            }),
    {
        if self.truncated {
            receipt.add_cap(
                ReceiptCap::output("line_characters", Some(self.max_chars), self.argument),
            );
        }
    }
}

/// How many items there are and how many of them were shown.
#[derive(Debug, Clone)]
pub struct ReceiptResult {
    pub unit: &'static str,
    pub total: usize,
    pub total_is_lower_bound: bool,
    pub shown: usize,
}

/// The model of a receipt's result.
pub struct ResultCount {
    pub unit: Seq<char>,
    pub total: nat,
    pub total_is_lower_bound: bool,
    pub shown: nat,
}

impl ReceiptResult {
    pub open spec fn model(&self) -> ResultCount {
        ResultCount {
            unit: self.unit@,
            total: self.total as nat,
            total_is_lower_bound: self.total_is_lower_bound,
            shown: self.shown as nat,
        }
    }

    /// No more items can be shown than there are.
    pub fn new(
        unit: &'static str,
        total: usize,
        total_is_lower_bound: bool,
        shown: usize,
    ) -> (result: ReceiptResult)
        requires
            shown <= total,
        ensures
            result.model() == (ResultCount {
                unit: unit@,
                total: total as nat,
                total_is_lower_bound,
                shown: shown as nat,
            }),
    {
        ReceiptResult { unit, total, total_is_lower_bound, shown }
    }
}

/// Whether one of the caps is of the boundary.
pub open spec fn some_cap_is(caps: Seq<Cap>, boundary: ReceiptCapBoundary) -> bool {
    exists|i: int| 0 <= i < caps.len() && (#[trigger] caps[i]).boundary == boundary
}

pub proof fn lemma_when(caps: Seq<Cap>, reached: bool, cap: Cap, boundary: ReceiptCapBoundary)
    ensures
        some_cap_is(caps + when(reached, cap), boundary) == (some_cap_is(caps, boundary) || (reached
            && cap.boundary == boundary)),
{
    let all = caps + when(reached, cap);
    if some_cap_is(caps, boundary) {
        let i = choose|i: int| 0 <= i < caps.len() && (#[trigger] caps[i]).boundary == boundary;
        assert(all[i] == caps[i]);
    }
    if reached && cap.boundary == boundary {
        assert(all[caps.len() as int] == cap);
    }
    if some_cap_is(all, boundary) {
        let i = choose|i: int| 0 <= i < all.len() && (#[trigger] all[i]).boundary == boundary;
        if i < caps.len() {
            assert(caps[i] == all[i]);
        }
    }
}

/// The receipt of a command. Whether it is complete follows from its caps, so
/// that what it says and how strict flags act on it cannot disagree.
#[derive(Debug)]
pub struct Receipt {
    pub command: String,
    pub profile: Option<String>,
    pub result: ReceiptResult,
    pub caps: Vec<ReceiptCap>,
    pub fields: Vec<(String, JsonValue)>,
}

/// The model of a receipt.
#[verifier::ext_equal]
pub struct ReceiptModel {
    pub command: Seq<char>,
    pub profile: Option<Seq<char>>,
    pub result: ResultCount,
    pub caps: Seq<Cap>,
    pub fields: Seq<(Seq<char>, Json)>,
}

pub open spec fn cap_models(caps: Seq<ReceiptCap>) -> Seq<Cap> {
    caps.map_values(|cap: ReceiptCap| cap.model())
}

/// Names that the receipt itself gives a meaning.
pub open spec fn is_reserved(key: Seq<char>) -> bool {
    key == "schema"@ || key == "tool"@ || key == "command"@ || key == "profile"@ || key
        == "duration_ms"@ || key == "scope_complete"@ || key == "output_truncated"@ || key
        == "complete"@ || key == "caps"@ || key == "result"@ || key == "output_cap_arguments"@
}

/// Names that can stand beside each other and beside the receipt's own.
pub open spec fn fresh_names(names: Seq<Seq<char>>) -> bool {
    &&& forall|i: int| 0 <= i < names.len() ==> !is_reserved(#[trigger] names[i])
    &&& forall|i: int, j: int|
        0 <= i < j < names.len() ==> (#[trigger] names[i]) != (#[trigger] names[j])
}

pub open spec fn field_names(fields: Seq<(Seq<char>, Json)>) -> Seq<Seq<char>> {
    fields.map_values(|field: (Seq<char>, Json)| field.0)
}

pub proof fn lemma_fresh_without(names: Seq<Seq<char>>, at: int)
    requires
        fresh_names(names),
        0 <= at < names.len(),
    ensures
        fresh_names(names.remove(at)),
{
    let fewer = names.remove(at);
    assert forall|i: int| 0 <= i < fewer.len() implies !is_reserved(#[trigger] fewer[i]) by {
        assert(fewer[i] == names[if i < at { i } else { i + 1 }]);
    }
    assert forall|i: int, j: int| 0 <= i < j < fewer.len() implies (#[trigger] fewer[i]) != (
    #[trigger] fewer[j]) by {
        assert(fewer[i] == names[if i < at { i } else { i + 1 }]);
        assert(fewer[j] == names[if j < at { j } else { j + 1 }]);
    }
}

/// The arguments of the output caps among the first `n`, each once, in order.
pub open spec fn exhausted(caps: Seq<Cap>, n: nat) -> Seq<Seq<char>>
    decreases n,
{
    if n == 0 || n > caps.len() {
        Seq::empty()
    } else {
        let before = exhausted(caps, (n - 1) as nat);
        let cap = caps[n - 1];
        if cap.boundary == ReceiptCapBoundary::Output && cap.argument is Some && !before.contains(
            cap.argument->0,
        ) {
            before.push(cap.argument->0)
        } else {
            before
        }
    }
}

impl ReceiptModel {
    pub open spec fn with_cap(self, cap: Cap) -> ReceiptModel {
        ReceiptModel { caps: self.caps.push(cap), ..self }
    }

    pub open spec fn with_field(self, key: Seq<char>, value: Json) -> ReceiptModel {
        ReceiptModel { fields: self.fields.push((key, value)), ..self }
    }

    pub open spec fn has_cap(self, boundary: ReceiptCapBoundary) -> bool {
        some_cap_is(self.caps, boundary)
    }

    /// Nothing bounded what was looked at.
    pub open spec fn scope_complete(self) -> bool {
        !self.has_cap(ReceiptCapBoundary::Scope)
    }

    /// Something that was found was not shown, or not in full.
    pub open spec fn output_truncated(self) -> bool {
        self.has_cap(ReceiptCapBoundary::Output)
    }

    pub open spec fn complete(self) -> bool {
        self.scope_complete() && !self.output_truncated()
    }

    pub open spec fn has_field(self, key: Seq<char>) -> bool {
        exists|i: int| 0 <= i < self.fields.len() && (#[trigger] self.fields[i]).0 == key
    }

    /// Field names differ from each other and from the receipt's own.
    pub open spec fn well_formed(self) -> bool {
        &&& forall|i: int| 0 <= i < self.fields.len() ==> !is_reserved((#[trigger] self.fields[i]).0)
        &&& forall|i: int, j: int|
            0 <= i < j < self.fields.len() ==> (#[trigger] self.fields[i]).0 != (
            #[trigger] self.fields[j]).0
        &&& self.result.shown <= self.result.total
    }

    /// The receipt as a JSON object.
    pub open spec fn json(self, duration_ms: nat) -> Json {
        let arguments = exhausted(self.caps, self.caps.len());
        Json::Object(
            seq![
                ("schema"@, Json::Text(RECEIPT_SCHEMA@)),
                ("tool"@, Json::Text("contextmink"@)),
                ("command"@, Json::Text(self.command)),
                (
                    "profile"@,
                    match self.profile {
                        Some(profile) => Json::Text(profile),
                        None => Json::Null,
                    },
                ),
                ("duration_ms"@, Json::Number(numbers::decimal(duration_ms))),
                ("scope_complete"@, Json::Bool(self.scope_complete())),
                ("output_truncated"@, Json::Bool(self.output_truncated())),
                ("complete"@, Json::Bool(self.complete())),
                ("caps"@, Json::Array(self.caps.map_values(|cap: Cap| cap_json(cap)))),
                ("result"@, result_json(self.result)),
            ] + (if self.output_truncated() {
                seq![
                    (
                        "output_cap_arguments"@,
                        Json::Array(arguments.map_values(|a: Seq<char>| Json::Text(a))),
                    ),
                ]
            } else {
                Seq::empty()
            }) + self.fields,
        )
    }
}

pub open spec fn cap_json(cap: Cap) -> Json {
    let head = seq![
        (
            "boundary"@,
            Json::Text(
                match cap.boundary {
                    ReceiptCapBoundary::Scope => "scope"@,
                    ReceiptCapBoundary::Output => "output"@,
                },
            ),
        ),
        ("dimension"@, Json::Text(cap.dimension)),
    ];
    Json::Object(
        match cap.limit {
            Some(limit) => head.push(("limit"@, Json::Number(numbers::decimal(limit)))),
            None => head,
        },
    )
}

pub open spec fn result_json(result: ResultCount) -> Json {
    Json::Object(
        seq![
            ("unit"@, Json::Text(result.unit)),
            ("total"@, Json::Number(numbers::decimal(result.total))),
            ("total_is_lower_bound"@, Json::Bool(result.total_is_lower_bound)),
            ("shown"@, Json::Number(numbers::decimal(result.shown))),
        ],
    )
}

fn cap_value(cap: &ReceiptCap) -> (value: JsonValue)
    ensures
        value@ == cap_json(cap.model()),
{
    let mut members: Vec<(String, JsonValue)> = Vec::new();
    let boundary = match cap.boundary {
        ReceiptCapBoundary::Scope => "scope",
        ReceiptCapBoundary::Output => "output",
    };
    add_member(&mut members, "boundary", json_text(boundary));
    add_member(&mut members, "dimension", json_text(cap.dimension));
    if let Some(limit) = cap.limit {
        add_member(&mut members, "limit", json_number(limit));
    }
    let value = json_object(members);
    assert(value@->Object_0 =~= cap_json(cap.model())->Object_0);
    value
}

fn result_value(result: &ReceiptResult) -> (value: JsonValue)
    ensures
        value@ == result_json(result.model()),
{
    let mut members: Vec<(String, JsonValue)> = Vec::new();
    add_member(&mut members, "unit", json_text(result.unit));
    add_member(&mut members, "total", json_count(result.total));
    add_member(
        &mut members,
        "total_is_lower_bound",
        JsonValue::Bool(result.total_is_lower_bound),
    );
    add_member(&mut members, "shown", json_count(result.shown));
    let value = json_object(members);
    assert(value@->Object_0 =~= result_json(result.model())->Object_0);
    value
}

impl Receipt {
    pub open spec fn model(&self) -> ReceiptModel {
        ReceiptModel {
            command: self.command@,
            profile: match self.profile {
                Some(profile) => Some(profile@),
                None => None,
            },
            result: self.result.model(),
            caps: cap_models(self.caps@),
            fields: json::member_models(self.fields@),
        }
    }

    /// A receipt without caps and extra fields.
    pub fn new(command: &str, profile: Option<&str>, result: ReceiptResult) -> (receipt: Receipt)
        requires
            result.shown <= result.total,
        ensures
            receipt.model() == (ReceiptModel {
                command: command@,
                profile: match profile {
                    Some(profile) => Some(profile@),
                    None => None,
                },
                result: result.model(),
                caps: Seq::empty(),
                fields: Seq::empty(),
            }),
            receipt.model().well_formed(),
    {
        let receipt = Receipt {
            command: command.to_owned(),
            profile: match profile {
                Some(profile) => Some(profile.to_owned()),
                None => None,
            },
            result,
            caps: Vec::new(),
            fields: Vec::new(),
        };
        assert(receipt.model().caps =~= Seq::empty());
        assert(receipt.model().fields =~= Seq::empty());
        receipt
    }

    pub fn add_cap(&mut self, cap: ReceiptCap)
        ensures
            final(self).model() == old(self).model().with_cap(cap.model()),
    {
        let ghost before = self.caps@;
        self.caps.push(cap);
        assert(cap_models(self.caps@) =~= cap_models(before).push(cap.model()));
        assert(self.model() =~= old(self).model().with_cap(cap.model()));
    }

    /// Adds a cap where it was reached.
    pub fn add_cap_if(&mut self, reached: bool, cap: ReceiptCap)
        ensures
            final(self).model() == (ReceiptModel {
                caps: old(self).model().caps + when(reached, cap.model()),
                ..old(self).model()
            }),
    {
        if reached {
            self.add_cap(cap);
        }
        assert(self.model().caps =~= old(self).model().caps + when(reached, cap.model()));
    }

    /// Adds a field of the command's own.
    pub fn insert(&mut self, key: &str, value: JsonValue)
        requires
            !is_reserved(key@),
            !old(self).model().has_field(key@),
        ensures
            final(self).model() == old(self).model().with_field(key@, value@),
            old(self).model().well_formed() ==> final(self).model().well_formed(),
    {
        add_member(&mut self.fields, key, value);
        assert(self.model() =~= old(self).model().with_field(key@, value@));
        assert forall|i: int, j: int|
            old(self).model().well_formed() && 0 <= i < j < self.model().fields.len() implies (
        #[trigger] self.model().fields[i]).0 != (#[trigger] self.model().fields[j]).0 by {
            assert(self.model().fields[i] == old(self).model().fields[i]);
            if j < old(self).model().fields.len() {
                assert(self.model().fields[j] == old(self).model().fields[j]);
            }
        }
    }

    /// Gives the receipt the command's own fields.
    pub fn insert_all(&mut self, members: Vec<(String, JsonValue)>)
        requires
            old(self).model().fields.len() == 0,
            fresh_names(field_names(json::member_models(members@))),
        ensures
            final(self).model() == (ReceiptModel {
                fields: json::member_models(members@),
                ..old(self).model()
            }),
            old(self).model().well_formed() ==> final(self).model().well_formed(),
    {
        let ghost names = field_names(json::member_models(members@));
        self.fields = members;
        assert forall|i: int| 0 <= i < self.model().fields.len() implies !is_reserved(
            (#[trigger] self.model().fields[i]).0,
        ) by {
            assert(names[i] == self.model().fields[i].0);
        }
        assert forall|i: int, j: int| 0 <= i < j < self.model().fields.len() implies (
        #[trigger] self.model().fields[i]).0 != (#[trigger] self.model().fields[j]).0 by {
            assert(names[i] == self.model().fields[i].0);
            assert(names[j] == self.model().fields[j].0);
        }
    }

    fn has_cap(&self, boundary: ReceiptCapBoundary) -> (held: bool)
        ensures
            held == self.model().has_cap(boundary),
    {
        let ghost models = cap_models(self.caps@);
        let mut i: usize = 0;
        while i < self.caps.len()
            invariant
                i <= self.caps.len(),
                models == cap_models(self.caps@),
                forall|k: int| 0 <= k < i ==> (#[trigger] models[k]).boundary != boundary,
            decreases self.caps.len() - i,
        {
            assert(models[i as int] == self.caps@[i as int].model());
            if self.caps[i].boundary == boundary {
                return true;
            }
            i += 1;
        }
        false
    }

    pub fn scope_complete(&self) -> (held: bool)
        ensures
            held == self.model().scope_complete(),
    {
        !self.has_cap(ReceiptCapBoundary::Scope)
    }

    pub fn output_truncated(&self) -> (held: bool)
        ensures
            held == self.model().output_truncated(),
    {
        self.has_cap(ReceiptCapBoundary::Output)
    }

    pub fn complete(&self) -> (held: bool)
        ensures
            held == self.model().complete(),
    {
        self.scope_complete() && !self.output_truncated()
    }

    /// The arguments of the output caps, each once, in order.
    pub fn output_cap_arguments(&self) -> (arguments: Vec<String>)
        ensures
            strings::texts(arguments@) == exhausted(
                self.model().caps,
                self.model().caps.len(),
            ),
    {
        let ghost models = cap_models(self.caps@);
        let mut arguments: Vec<String> = Vec::new();
        let mut i: usize = 0;
        assert(strings::texts(arguments@) =~= Seq::empty());
        while i < self.caps.len()
            invariant
                i <= self.caps.len(),
                models == cap_models(self.caps@),
                strings::texts(arguments@) == exhausted(models, i as nat),
            decreases self.caps.len() - i,
        {
            assert(models[i as int] == self.caps@[i as int].model());
            if self.caps[i].boundary == ReceiptCapBoundary::Output {
                if let Some(argument) = self.caps[i].argument {
                    if !holds(&arguments, argument) {
                        let ghost before = arguments@;
                        let text = argument.to_owned();
                        arguments.push(text);
                        assert(strings::texts(arguments@) =~= strings::texts(before).push(
                            argument@,
                        ));
                    }
                }
            }
            i += 1;
        }
        arguments
    }

    /// The receipt as a JSON object.
    pub fn into_value(self, duration_ms: u64) -> (value: JsonValue)
        ensures
            value@ == self.model().json(duration_ms as nat),
    {
        let scope_complete = self.scope_complete();
        let output_truncated = self.output_truncated();
        let arguments = self.output_cap_arguments();
        let ghost model = self.model();
        let ghost wanted_caps = model.caps.map_values(|cap: Cap| cap_json(cap));
        let mut caps: Vec<JsonValue> = Vec::new();
        let mut i: usize = 0;
        while i < self.caps.len()
            invariant
                i <= self.caps.len(),
                model == self.model(),
                wanted_caps == model.caps.map_values(|cap: Cap| cap_json(cap)),
                json::item_models(caps@) == wanted_caps.take(i as int),
            decreases self.caps.len() - i,
        {
            assert(model.caps[i as int] == self.caps@[i as int].model());
            assert(wanted_caps.take(i + 1) =~= wanted_caps.take(i as int).push(
                wanted_caps[i as int],
            ));
            let cap = cap_value(&self.caps[i]);
            add_item(&mut caps, cap);
            i += 1;
        }
        assert(wanted_caps.take(i as int) =~= wanted_caps);
        let mut members: Vec<(String, JsonValue)> = Vec::new();
        add_member(&mut members, "schema", json_text(RECEIPT_SCHEMA));
        add_member(&mut members, "tool", json_text("contextmink"));
        add_member(&mut members, "command", json_text(self.command.as_str()));
        add_member(&mut members, "profile", json_optional_text(&self.profile));
        add_member(&mut members, "duration_ms", json_number(duration_ms));
        add_member(&mut members, "scope_complete", JsonValue::Bool(scope_complete));
        add_member(&mut members, "output_truncated", JsonValue::Bool(output_truncated));
        add_member(
            &mut members,
            "complete",
            JsonValue::Bool(scope_complete && !output_truncated),
        );
        add_member(&mut members, "caps", json_array(caps));
        add_member(&mut members, "result", result_value(&self.result));
        if output_truncated {
            add_member(&mut members, "output_cap_arguments", json_texts(&arguments));
        }
        let ghost head = json::member_models(members@);
        let mut k: usize = 0;
        assert(model.fields.take(0) =~= Seq::empty());
        assert(head + model.fields.take(0) =~= head);
        while k < self.fields.len()
            invariant
                k <= self.fields.len(),
                model == self.model(),
                json::member_models(members@) == head + model.fields.take(k as int),
            decreases self.fields.len() - k,
        {
            assert(model.fields[k as int] == (
                self.fields@[k as int].0@,
                self.fields@[k as int].1@,
            ));
            let value = self.fields[k].1.copy();
            add_member(&mut members, self.fields[k].0.as_str(), value);
            assert(head + model.fields.take(k + 1) =~= (head + model.fields.take(k as int)).push(
                model.fields[k as int],
            ));
            k += 1;
        }
        assert(model.fields.take(k as int) =~= model.fields);
        let value = json_object(members);
        assert(value@->Object_0 =~= model.json(duration_ms as nat)->Object_0);
        value
    }
}

fn holds(texts: &[String], wanted: &str) -> (held: bool)
    ensures
        held == strings::texts(texts@).contains(wanted@),
{
    let ghost all = strings::texts(texts@);
    let mut i: usize = 0;
    while i < texts.len()
        invariant
            i <= texts.len(),
            all == strings::texts(texts@),
            forall|k: int| 0 <= k < i ==> #[trigger] all[k] != wanted@,
        decreases texts.len() - i,
    {
        assert(all[i as int] == texts@[i as int]@);
        if same_text(texts[i].as_str(), wanted) {
            return true;
        }
        i += 1;
    }
    false
}

/// The options by which a receipt can fail a command.
#[derive(Debug, Clone, Copy)]
pub struct ReceiptOptions {
    pub fail_if_truncated: bool,
    pub require_complete_scope: bool,
}

/// Why a command fails once its receipt is written.
#[derive(Debug, Clone, Copy, PartialEq, Eq, Structural)]
pub enum ReceiptFailure {
    IncompleteScope,
    TruncatedOutput,
}

impl ReceiptFailure {
    pub fn message(self) -> (message: &'static str)
        ensures
            message@ == match self {
                ReceiptFailure::IncompleteScope =>
                    "contextmink scope was incomplete (--require-complete-scope)"@,
                ReceiptFailure::TruncatedOutput =>
                    "contextmink output was truncated (strict completion requested)"@,
            },
    {
        match self {
            ReceiptFailure::IncompleteScope =>
                "contextmink scope was incomplete (--require-complete-scope)",
            ReceiptFailure::TruncatedOutput =>
                "contextmink output was truncated (strict completion requested)",
        }
    }
}

/// What the strict flags make a command fail with after its receipt, if they do.
pub open spec fn strict_failure(
    options: ReceiptOptions,
    scope_complete: bool,
    output_truncated: bool,
) -> Option<ReceiptFailure> {
    if options.require_complete_scope && !scope_complete {
        Some(ReceiptFailure::IncompleteScope)
    } else if options.fail_if_truncated && output_truncated {
        Some(ReceiptFailure::TruncatedOutput)
    } else {
        None
    }
}

/// A command with a complete scope and nothing cut never fails for a strict flag, and
/// one without strict flags never does; a flag fails the commands that it names, and a
/// further flag never lets one pass that failed.
pub proof fn strict_flags_fail_what_they_name(
    options: ReceiptOptions,
    stricter: ReceiptOptions,
    scope_complete: bool,
    output_truncated: bool,
)
    ensures
        scope_complete && !output_truncated ==> strict_failure(
            options,
            scope_complete,
            output_truncated,
        ) is None,
        !options.require_complete_scope && !options.fail_if_truncated ==> strict_failure(
            options,
            scope_complete,
            output_truncated,
        ) is None,
        options.require_complete_scope && !scope_complete ==> strict_failure(
            options,
            scope_complete,
            output_truncated,
        ) is Some,
        options.fail_if_truncated && output_truncated ==> strict_failure(
            options,
            scope_complete,
            output_truncated,
        ) is Some,
        (options.require_complete_scope ==> stricter.require_complete_scope) && (
        options.fail_if_truncated ==> stricter.fail_if_truncated) && strict_failure(
            options,
            scope_complete,
            output_truncated,
        ) is Some ==> strict_failure(stricter, scope_complete, output_truncated) is Some,
{
}

/// Whether the strict flags make a command fail after its receipt.
pub fn fail_after_receipt(
    options: ReceiptOptions,
    scope_complete: bool,
    output_truncated: bool,
) -> (verdict: Result<(), ReceiptFailure>)
    ensures
        verdict == (match strict_failure(options, scope_complete, output_truncated) {
            Some(failure) => Err::<(), ReceiptFailure>(failure),
            None => Ok(()),
        }),
{
    if options.require_complete_scope && !scope_complete {
        Err(ReceiptFailure::IncompleteScope)
    } else if options.fail_if_truncated && output_truncated {
        Err(ReceiptFailure::TruncatedOutput)
    } else {
        Ok(())
    }
}

/// What a verdict of no match covered, if there was no match.
pub fn no_match_scope(no_matches: bool, scope_complete: bool) -> (scope: Option<&'static str>)
    ensures
        match scope {
            None => !no_matches,
            Some(scope) => no_matches && scope@ == (if scope_complete {
                "complete_scope"@
            } else {
                "scanned_subset"@
            }),
        },
{
    if !no_matches {
        None
    } else if scope_complete {
        Some("complete_scope")
    } else {
        Some("scanned_subset")
    }
}

/// A duration in whole milliseconds as a receipt shows it.
pub fn elapsed_ms(millis: u128) -> (shown: u64)
    ensures
        shown == if millis <= u64::MAX {
            millis as int
        } else {
            u64::MAX as int
        },
{
    if millis <= u64::MAX as u128 {
        millis as u64
    } else {
        u64::MAX
    }
}

/// A receipt is complete exactly when it has no cap, each cap spoils its own half
/// of that, and the JSON form says the same.
pub proof fn completion_follows_from_caps(receipt: ReceiptModel, cap: Cap, duration_ms: nat)
    ensures
        receipt.complete() == (receipt.caps.len() == 0),
        receipt.with_cap(cap).scope_complete() == (receipt.scope_complete() && cap.boundary
            != ReceiptCapBoundary::Scope),
        receipt.with_cap(cap).output_truncated() == (receipt.output_truncated() || cap.boundary
            == ReceiptCapBoundary::Output),
        !receipt.with_cap(cap).complete(),
        receipt.json(duration_ms)->Object_0[7] == ("complete"@, Json::Bool(receipt.complete())),
{
    let more = receipt.with_cap(cap);
    assert(more.caps[receipt.caps.len() as int] == cap);
    assert forall|i: int| 0 <= i < receipt.caps.len() implies more.caps[i] == receipt.caps[i] by {}
    if receipt.has_cap(ReceiptCapBoundary::Scope) {
        let i = choose|i: int|
            0 <= i < receipt.caps.len() && (#[trigger] receipt.caps[i]).boundary
                == ReceiptCapBoundary::Scope;
        assert(more.caps[i].boundary == ReceiptCapBoundary::Scope);
    }
    if receipt.has_cap(ReceiptCapBoundary::Output) {
        let i = choose|i: int|
            0 <= i < receipt.caps.len() && (#[trigger] receipt.caps[i]).boundary
                == ReceiptCapBoundary::Output;
        assert(more.caps[i].boundary == ReceiptCapBoundary::Output);
    }
    if receipt.caps.len() > 0 {
        assert(receipt.caps[0].boundary == ReceiptCapBoundary::Scope || receipt.caps[0].boundary
            == ReceiptCapBoundary::Output);
    }
}

/// Every exhausted output control is named once, and only those are.
pub proof fn exhausted_controls_are_named_once(caps: Seq<Cap>, n: nat)
    requires
        n <= caps.len(),
    ensures
        exhausted(caps, n).no_duplicates(),
        forall|argument: Seq<char>|
            exhausted(caps, n).contains(argument) <==> exists|i: int|
                0 <= i < n && (#[trigger] caps[i]).boundary == ReceiptCapBoundary::Output
                    && caps[i].argument == Some(argument),
    decreases n,
{
    if n > 0 {
        let before = exhausted(caps, (n - 1) as nat);
        exhausted_controls_are_named_once(caps, (n - 1) as nat);
        let cap = caps[n - 1];
        let after = exhausted(caps, n);
        assert forall|argument: Seq<char>| after.contains(argument) <==> exists|i: int|
            0 <= i < n && (#[trigger] caps[i]).boundary == ReceiptCapBoundary::Output
                && caps[i].argument == Some(argument) by {
            if before.contains(argument) {
                let at = choose|k: int| 0 <= k < before.len() && before[k] == argument;
                assert(after[at] == argument);
            }
            if cap.boundary == ReceiptCapBoundary::Output && cap.argument == Some(argument)
                && !before.contains(argument) {
                assert(after[after.len() - 1] == argument);
            }
            if after.contains(argument) && !before.contains(argument) {
                let at = choose|k: int| 0 <= k < after.len() && after[k] == argument;
                assert(caps[n - 1].argument == Some(argument));
            }
        }
    }
}

/// A text that is cut ends in dots, three of them where there is room, and keeps what
/// stands before them.
pub proof fn cut_texts_end_in_dots(text: Seq<char>, max: nat)
    requires
        text.len() > max,
    ensures
        clamped(text, max).len() == max,
        max > 3 ==> clamped(text, max) == text.take(max - 3) + seq!['.', '.', '.'],
        forall|i: int| 0 <= i < max && i >= max - 3 ==> #[trigger] clamped(text, max)[i] == '.',
{
}

} // verus!
