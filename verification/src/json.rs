//! JSON values: their model, how they are read and how they are written.
use vstd::prelude::*;

use crate::numbers;
use crate::numbers::{count_text, decimal_text};
use crate::output;
use crate::output::{clamp_text_with_status, ClampedText};
use crate::strings;
use crate::strings::{chars_of, debug_text, join, push_text, same_text};

verus! {

/// A JSON value. A number is kept as it is spelled, so that no digit of it is
/// lost; the members of an object are kept in order.
#[derive(Debug)]
pub enum JsonValue {
    Null,
    Bool(bool),
    Number(String),
    Text(String),
    Array(Vec<JsonValue>),
    Object(Vec<(String, JsonValue)>),
}

/// The model of a JSON value.
#[verifier::ext_equal]
pub enum Json {
    Null,
    Bool(bool),
    Number(Seq<char>),
    Text(Seq<char>),
    Array(Seq<Json>),
    Object(Seq<(Seq<char>, Json)>),
}

impl View for JsonValue {
    type V = Json;

    open spec fn view(&self) -> Json
        decreases self,
    {
        match self {
            JsonValue::Null => Json::Null,
            JsonValue::Bool(value) => Json::Bool(*value),
            JsonValue::Number(spelling) => Json::Number(spelling@),
            JsonValue::Text(text) => Json::Text(text@),
            JsonValue::Array(items) => Json::Array(
                Seq::new(
                    items@.len(),
                    |i: int|
                        if 0 <= i < items@.len() {
                            items@[i].view()
                        } else {
                            arbitrary()
                        },
                ),
            ),
            JsonValue::Object(members) => Json::Object(
                Seq::new(
                    members@.len(),
                    |i: int|
                        if 0 <= i < members@.len() {
                            (members@[i].0@, members@[i].1.view())
                        } else {
                            arbitrary()
                        },
                ),
            ),
        }
    }
}

/// Above this many nodes a value is summarised, not written out.
pub const JSON_SMALL_NODE_LIMIT: usize = 80;

/// Above this many characters of strings a value is summarised, not written out.
pub const JSON_SMALL_STRING_CHAR_LIMIT: usize = 4096;

/// The value tree of `serde_json`.
#[verifier::external_type_specification]
#[verifier::external_body]
pub struct ExValue(serde_json::Value);

/// What `serde_json` reads a document as, or the message of its error.
pub uninterp spec fn json_read(bytes: Seq<u8>) -> Result<Json, Seq<char>>;

/// The string that `serde_json` reads a quoted string as, or the message of its
/// error.
pub uninterp spec fn json_string_read(bytes: Seq<u8>) -> Result<Seq<char>, Seq<char>>;

/// A text as `serde_json` writes it: in double quotes, with escapes.
pub uninterp spec fn json_quoted(text: Seq<char>) -> Seq<char>;

/// A value whose parts can each be addressed: no object has a key twice, and
/// positions fit a machine word.
pub open spec fn addressable(value: Json) -> bool
    decreases value,
{
    match value {
        Json::Array(items) => {
            &&& items.len() <= usize::MAX
            &&& forall|i: int| 0 <= i < items.len() ==> addressable(#[trigger] items[i])
        },
        Json::Object(members) => {
            &&& members.len() <= usize::MAX
            &&& forall|i: int, j: int|
                0 <= i < j < members.len() ==> (#[trigger] members[i]).0 != (
                #[trigger] members[j]).0
            &&& forall|i: int| 0 <= i < members.len() ==> addressable((#[trigger] members[i]).1)
        },
        _ => true,
    }
}

/// The value that a tree of `serde_json` stands for, node for node; a number stands
/// for its spelling.
pub uninterp spec fn tree_value(tree: serde_json::Value) -> Json;

/// The value of a tree of `serde_json`, node for node; a number becomes its spelling.
#[verifier::external_body]
fn from_outside(tree: serde_json::Value) -> (own: JsonValue)
    ensures
        own@ == tree_value(tree),
{
    match tree {
        serde_json::Value::Null => JsonValue::Null,
        serde_json::Value::Bool(held) => JsonValue::Bool(held),
        serde_json::Value::Number(number) => JsonValue::Number(number.to_string()),
        serde_json::Value::String(text) => JsonValue::Text(text),
        serde_json::Value::Array(items) => {
            JsonValue::Array(items.into_iter().map(from_outside).collect())
        }
        serde_json::Value::Object(members) => JsonValue::Object(
            members.into_iter().map(|(key, item)| (key, from_outside(item))).collect(),
        ),
    }
}

/// `serde_json::from_slice` into its value tree: the tree that it reads, or the
/// message of its error, depends on the bytes alone. Its objects are maps, so no
/// key is in one twice. It skips white space between tokens and reads its own quoted
/// texts back, so such an object of texts, flags and lists of texts that is written over
/// several lines is read as the members that it was written from; the map may put
/// them in another order.
#[verifier::external_body]
fn read_tree(bytes: &[u8]) -> (read: Result<serde_json::Value, String>)
    ensures
        match read {
            Ok(tree) => json_read(bytes@) == Ok::<Json, Seq<char>>(tree_value(tree)) && addressable(
                tree_value(tree),
            ),
            Err(message) => json_read(bytes@) == Err::<Json, Seq<char>>(message@),
        },
        read matches Ok(tree) ==> reads_back(bytes@, Some(tree_value(tree))),
        read is Err ==> reads_back(bytes@, None),
{
    serde_json::from_slice(bytes).map_err(|error| error.to_string())
}

/// The value that bytes are, or the message with which they are refused.
pub(crate) fn read_document(bytes: &[u8]) -> (read: Result<JsonValue, String>)
    ensures
        match read {
            Ok(value) => json_read(bytes@) == Ok::<Json, Seq<char>>(value@) && addressable(value@)
                && reads_back(bytes@, Some(value@)),
            Err(message) => json_read(bytes@) == Err::<Json, Seq<char>>(message@) && reads_back(
                bytes@,
                None,
            ),
        },
{
    match read_tree(bytes) {
        Ok(tree) => Ok(from_outside(tree)),
        Err(message) => Err(message),
    }
}

/// `serde_json::from_slice` into a `String`: what it reads, or the message of its
/// error, depends on the bytes alone.
#[verifier::external_body]
pub(crate) fn read_string(bytes: &[u8]) -> (read: Result<String, String>)
    ensures
        match read {
            Ok(text) => json_string_read(bytes@) == Ok::<Seq<char>, Seq<char>>(text@),
            Err(message) => json_string_read(bytes@) == Err::<Seq<char>, Seq<char>>(message@),
        },
{
    match serde_json::from_slice::<String>(bytes) {
        Ok(text) => Ok(text),
        Err(error) => Err(error.to_string()),
    }
}

/// `serde_json::to_string` of a text, which depends on the text alone and does
/// not fail.
#[verifier::external_body]
pub(crate) fn quote(text: &str) -> (quoted: String)
    ensures
        quoted@ == json_quoted(text@),
{
    serde_json::to_string(text).unwrap_or_default()
}

pub open spec fn item_models(items: Seq<JsonValue>) -> Seq<Json> {
    items.map_values(|item: JsonValue| item@)
}

pub open spec fn member_models(members: Seq<(String, JsonValue)>) -> Seq<(Seq<char>, Json)> {
    members.map_values(|member: (String, JsonValue)| (member.0@, member.1@))
}

pub proof fn lemma_array_view(items: Vec<JsonValue>)
    ensures
        JsonValue::Array(items)@ == Json::Array(item_models(items@)),
{
    reveal_with_fuel(<JsonValue as View>::view, 2);
    let model = JsonValue::Array(items)@->Array_0;
    assert(model =~= item_models(items@));
}

pub proof fn lemma_object_view(members: Vec<(String, JsonValue)>)
    ensures
        JsonValue::Object(members)@ == Json::Object(member_models(members@)),
{
    reveal_with_fuel(<JsonValue as View>::view, 2);
    let model = JsonValue::Object(members)@->Object_0;
    assert(model =~= member_models(members@));
}

/// The value of the first member with the key, if any.
pub open spec fn member_of(members: Seq<(Seq<char>, Json)>, key: Seq<char>) -> Option<Json>
    decreases members.len(),
{
    if members.len() == 0 {
        None
    } else if members[0].0 == key {
        Some(members[0].1)
    } else {
        member_of(members.drop_first(), key)
    }
}

/// The compact text of a value: no spaces, members and items in order.
pub open spec fn compact(value: Json) -> Seq<char>
    decreases value, 0nat,
{
    match value {
        Json::Null => "null"@,
        Json::Bool(held) => if held {
            "true"@
        } else {
            "false"@
        },
        Json::Number(spelling) => spelling,
        Json::Text(text) => json_quoted(text),
        Json::Array(items) => "["@ + compact_items(items, items.len()) + "]"@,
        Json::Object(members) => "{"@ + compact_members(members, members.len()) + "}"@,
    }
}

/// The compact texts of the first `n` items, separated by commas.
pub open spec fn compact_items(items: Seq<Json>, n: nat) -> Seq<char>
    decreases items, n,
{
    if n == 0 || n > items.len() {
        Seq::empty()
    } else if n == 1 {
        compact(items[0])
    } else {
        compact_items(items, (n - 1) as nat) + ","@ + compact(items[n - 1])
    }
}

/// The compact texts of the first `n` members, separated by commas.
pub open spec fn compact_members(members: Seq<(Seq<char>, Json)>, n: nat) -> Seq<char>
    decreases members, n,
{
    if n == 0 || n > members.len() {
        Seq::empty()
    } else if n == 1 {
        json_quoted(members[0].0) + ":"@ + compact(members[0].1)
    } else {
        compact_members(members, (n - 1) as nat) + ","@ + json_quoted(members[n - 1].0) + ":"@
            + compact(members[n - 1].1)
    }
}

/// Whether a value is a text, a flag or a list of texts.
pub open spec fn is_flat_value(value: Json) -> bool {
    match value {
        Json::Text(_) | Json::Bool(_) => true,
        Json::Array(items) => forall|i: int| 0 <= i < items.len() ==> #[trigger] items[i] is Text,
        _ => false,
    }
}

/// Whether members are such values, each under a key of its own. A key that starts
/// with a dollar sign may mark one of `serde_json`'s own forms, and is left out.
pub open spec fn is_flat(members: Seq<(Seq<char>, Json)>) -> bool {
    &&& members.len() > 0
    &&& forall|i: int|
        0 <= i < members.len() ==> (#[trigger] members[i]).0.len() > 0 && members[i].0[0] != '$'
    &&& forall|i: int| 0 <= i < members.len() ==> is_flat_value((#[trigger] members[i]).1)
    &&& forall|i: int, j: int|
        0 <= i < j < members.len() ==> (#[trigger] members[i]).0 != (#[trigger] members[j]).0
}

/// Whether an object has these members and no others.
pub open spec fn reads_as(members: Seq<(Seq<char>, Json)>, found: Seq<(Seq<char>, Json)>) -> bool {
    &&& forall|i: int|
        0 <= i < members.len() ==> member_of(found, (#[trigger] members[i]).0) == Some(
            members[i].1,
        )
    &&& forall|j: int| 0 <= j < found.len() ==> members.contains(#[trigger] found[j])
}

/// Whether bytes that a flat object is written as are read as its members.
pub open spec fn reads_back(bytes: Seq<u8>, read: Option<Json>) -> bool {
    forall|members: Seq<(Seq<char>, Json)>|
        is_flat(members) && (bytes == vstd::utf8::encode_utf8(#[trigger] pretty(members)) || bytes
            == vstd::utf8::encode_utf8(pretty(members) + "\n"@)) ==> (read matches Some(
            Json::Object(found),
        ) && reads_as(members, found))
}

/// A member's value in an object that is written over several lines: the items of a
/// list have lines of their own.
pub open spec fn pretty_value(value: Json) -> Seq<char> {
    match value {
        Json::Array(items) => if items.len() == 0 {
            "[]"@
        } else {
            "[\n    "@ + strings::join_texts(
                items.map_values(|item: Json| compact(item)),
                ",\n    "@,
            ) + "\n  ]"@
        },
        _ => compact(value),
    }
}

pub open spec fn pretty_member(member: (Seq<char>, Json)) -> Seq<char> {
    json_quoted(member.0) + ": "@ + pretty_value(member.1)
}

/// An object that is written over several lines, a member on each.
pub open spec fn pretty(members: Seq<(Seq<char>, Json)>) -> Seq<char> {
    "{\n  "@ + strings::join_texts(
        members.map_values(|member: (Seq<char>, Json)| pretty_member(member)),
        ",\n  "@,
    ) + "\n}"@
}

fn pretty_value_text(value: &JsonValue) -> (text: String)
    ensures
        text@ == pretty_value(value@),
{
    match value {
        JsonValue::Array(items) => {
            proof {
                lemma_array_view(*items);
            }
            let ghost models = item_models(items@);
            let ghost wanted = models.map_values(|item: Json| compact(item));
            assert(models.len() == items@.len());
            if items.len() == 0 {
                return "[]".to_owned();
            }
            let mut parts: Vec<String> = Vec::new();
            let mut i: usize = 0;
            assert(strings::texts(parts@) =~= wanted.take(0));
            while i < items.len()
                invariant
                    i <= items.len(),
                    models == item_models(items@),
                    wanted == models.map_values(|item: Json| compact(item)),
                    strings::texts(parts@) == wanted.take(i as int),
                decreases items.len() - i,
            {
                assert(models[i as int] == items@[i as int]@);
                push_text(&mut parts, items[i].to_compact());
                assert(wanted.take(i + 1) =~= wanted.take(i as int).push(wanted[i as int]));
                i += 1;
            }
            assert(wanted.take(i as int) =~= wanted);
            "[\n    ".to_owned().concat(join(&parts, ",\n    ").as_str()).concat("\n  ]")
        },
        _ => value.to_compact(),
    }
}

/// An object that is written over several lines, a member on each.
pub fn pretty_object(members: &Vec<(String, JsonValue)>) -> (text: String)
    ensures
        text@ == pretty(member_models(members@)),
{
    let ghost models = member_models(members@);
    let ghost wanted = models.map_values(|member: (Seq<char>, Json)| pretty_member(member));
    assert(models.len() == members@.len());
    let mut parts: Vec<String> = Vec::new();
    let mut i: usize = 0;
    assert(strings::texts(parts@) =~= wanted.take(0));
    while i < members.len()
        invariant
            i <= members.len(),
            models == member_models(members@),
            wanted == models.map_values(|member: (Seq<char>, Json)| pretty_member(member)),
            strings::texts(parts@) == wanted.take(i as int),
        decreases members.len() - i,
    {
        assert(models[i as int] == (members@[i as int].0@, members@[i as int].1@));
        push_text(
            &mut parts,
            quote(members[i].0.as_str()).concat(": ").concat(
                pretty_value_text(&members[i].1).as_str(),
            ),
        );
        assert(wanted.take(i + 1) =~= wanted.take(i as int).push(wanted[i as int]));
        i += 1;
    }
    assert(wanted.take(i as int) =~= wanted);
    "{\n  ".to_owned().concat(join(&parts, ",\n  ").as_str()).concat("\n}")
}

/// The nodes and string characters counted once the value is added to those
/// counted before it; `None` once a limit is passed.
pub open spec fn counted(value: Json, nodes: nat, characters: nat) -> Option<(nat, nat)>
    decreases value, 0nat,
{
    if nodes + 1 > JSON_SMALL_NODE_LIMIT {
        None
    } else {
        match value {
            Json::Text(text) => if characters + text.len() > JSON_SMALL_STRING_CHAR_LIMIT {
                None
            } else {
                Some((nodes + 1, characters + text.len()))
            },
            Json::Array(items) => counted_items(items, nodes + 1, characters, items.len()),
            Json::Object(members) => counted_members(
                members,
                nodes + 1,
                characters,
                members.len(),
            ),
            _ => Some((nodes + 1, characters)),
        }
    }
}

pub open spec fn counted_items(
    items: Seq<Json>,
    nodes: nat,
    characters: nat,
    n: nat,
) -> Option<(nat, nat)>
    decreases items, n,
{
    if n == 0 || n > items.len() {
        Some((nodes, characters))
    } else {
        match counted_items(items, nodes, characters, (n - 1) as nat) {
            Some((nodes, characters)) => counted(items[n - 1], nodes, characters),
            None => None,
        }
    }
}

pub open spec fn counted_members(
    members: Seq<(Seq<char>, Json)>,
    nodes: nat,
    characters: nat,
    n: nat,
) -> Option<(nat, nat)>
    decreases members, n,
{
    if n == 0 || n > members.len() {
        Some((nodes, characters))
    } else {
        match counted_members(members, nodes, characters, (n - 1) as nat) {
            Some((nodes, characters)) => counted(members[n - 1].1, nodes, characters),
            None => None,
        }
    }
}

/// Whether a value is written out rather than summarised.
pub open spec fn is_small(value: Json) -> bool {
    counted(value, 0, 0) is Some
}

/// The first keys of an object, as an array of strings.
pub open spec fn key_sample(members: Seq<(Seq<char>, Json)>) -> Json {
    Json::Array(
        Seq::new(
            if members.len() < 5 {
                members.len()
            } else {
                5
            },
            |i: int| Json::Text(members[i].0),
        ),
    )
}

/// The text that stands for a value: scalars and small containers as they are,
/// a larger container by its size.
pub open spec fn summary(value: Json) -> Seq<char> {
    match value {
        Json::Text(text) => strings::debug_quoted(text),
        Json::Array(items) => if is_small(value) {
            compact(value)
        } else {
            "<array:"@ + numbers::decimal(items.len()) + " items>"@
        },
        Json::Object(members) => if is_small(value) {
            compact(value)
        } else {
            "<object:"@ + numbers::decimal(members.len()) + " keys sample="@ + compact(
                key_sample(members),
            ) + ">"@
        },
        _ => compact(value),
    }
}

/// The text that value filters search: the contents of a string, the summary of
/// any other value.
pub open spec fn search_text(value: Json) -> Seq<char> {
    match value {
        Json::Text(text) => text,
        _ => summary(value),
    }
}

pub open spec fn kind_name(value: Json) -> Seq<char> {
    match value {
        Json::Null => "null"@,
        Json::Bool(_) => "bool"@,
        Json::Number(_) => "number"@,
        Json::Text(_) => "string"@,
        Json::Array(_) => "array"@,
        Json::Object(_) => "object"@,
    }
}

pub open spec fn count_json(n: nat) -> Json {
    Json::Number(numbers::decimal(n))
}

pub open spec fn text_array(texts: Seq<Seq<char>>) -> Json {
    Json::Array(texts.map_values(|text: Seq<char>| Json::Text(text)))
}

pub fn json_text(text: &str) -> (value: JsonValue)
    ensures
        value@ == Json::Text(text@),
{
    JsonValue::Text(text.to_owned())
}

pub fn json_count(n: usize) -> (value: JsonValue)
    ensures
        value@ == Json::Number(numbers::decimal(n as nat)),
{
    JsonValue::Number(count_text(n))
}

pub fn json_number(n: u64) -> (value: JsonValue)
    ensures
        value@ == Json::Number(numbers::decimal(n as nat)),
{
    JsonValue::Number(decimal_text(n))
}

pub fn json_integer(n: i64) -> (value: JsonValue)
    ensures
        value@ == Json::Number(numbers::signed_decimal(n as int, None)),
{
    JsonValue::Number(numbers::signed_decimal_text(n, None))
}

/// A string, or null.
pub fn json_optional_text(text: &Option<String>) -> (value: JsonValue)
    ensures
        value@ == match text {
            Some(text) => Json::Text(text@),
            None => Json::Null,
        },
{
    match text {
        Some(text) => JsonValue::Text(text.clone()),
        None => JsonValue::Null,
    }
}

/// An array of strings.
pub fn json_texts(texts: &[String]) -> (value: JsonValue)
    ensures
        value@ == Json::Array(
            strings::texts(texts@).map_values(|text: Seq<char>| Json::Text(text)),
        ),
{
    let ghost wanted = strings::texts(texts@).map_values(|text: Seq<char>| Json::Text(text));
    let mut items: Vec<JsonValue> = Vec::new();
    let mut i: usize = 0;
    while i < texts.len()
        invariant
            i <= texts.len(),
            wanted == strings::texts(texts@).map_values(|text: Seq<char>| Json::Text(text)),
            item_models(items@) == wanted.take(i as int),
        decreases texts.len() - i,
    {
        let ghost before = items@;
        let item = JsonValue::Text(texts[i].clone());
        items.push(item);
        assert(item_models(items@) =~= item_models(before).push(item@));
        assert(wanted.take(i + 1) =~= wanted.take(i as int).push(wanted[i as int]));
        i += 1;
    }
    assert(wanted.take(i as int) =~= wanted);
    proof {
        lemma_array_view(items);
    }
    JsonValue::Array(items)
}

pub fn json_array(items: Vec<JsonValue>) -> (value: JsonValue)
    ensures
        value@ == Json::Array(item_models(items@)),
{
    proof {
        lemma_array_view(items);
    }
    JsonValue::Array(items)
}

pub fn json_object(members: Vec<(String, JsonValue)>) -> (value: JsonValue)
    ensures
        value@ == Json::Object(member_models(members@)),
{
    proof {
        lemma_object_view(members);
    }
    JsonValue::Object(members)
}

/// Adds a member to those of an object in the making.
pub fn add_member(members: &mut Vec<(String, JsonValue)>, key: &str, value: JsonValue)
    ensures
        member_models(final(members)@) == member_models(old(members)@).push((key@, value@)),
{
    let ghost before = members@;
    let member = (key.to_owned(), value);
    members.push(member);
    assert(member_models(members@) =~= member_models(before).push((key@, value@)));
}

/// Adds an item to those of an array in the making.
pub fn add_item(items: &mut Vec<JsonValue>, item: JsonValue)
    ensures
        item_models(final(items)@) == item_models(old(items)@).push(item@),
{
    let ghost before = items@;
    items.push(item);
    assert(item_models(items@) =~= item_models(before).push(item@));
}

impl JsonValue {
    /// A copy of the value.
    pub fn copy(&self) -> (same: JsonValue)
        ensures
            same@ == self@,
    {
        copy_value(self)
    }

    /// The member of an object with the key; nothing for any other value.
    pub fn get(&self, key: &str) -> (member: Option<&JsonValue>)
        ensures
            match member {
                Some(member) => self@ matches Json::Object(members) && member_of(members, key@)
                    == Some(member@),
                None => self@ matches Json::Object(members) ==> member_of(members, key@) is None,
            },
    {
        match self {
            JsonValue::Object(members) => {
                proof {
                    lemma_object_view(*members);
                }
                let ghost models = member_models(members@);
                let mut i: usize = 0;
                assert(models.skip(0) =~= models);
                while i < members.len()
                    invariant
                        i <= members.len(),
                        models == member_models(members@),
                        self@ == Json::Object(models),
                        member_of(models.skip(i as int), key@) == member_of(models, key@),
                    decreases members.len() - i,
                {
                    let ghost left = models.skip(i as int);
                    assert(left[0] == models[i as int]);
                    assert(left.drop_first() =~= models.skip(i + 1));
                    if same_text(members[i].0.as_str(), key) {
                        return Some(&members[i].1);
                    }
                    i += 1;
                }
                None
            },
            _ => None,
        }
    }

    /// The text of a string value.
    pub fn as_text(&self) -> (text: Option<String>)
        ensures
            match text {
                Some(text) => self@ == Json::Text(text@),
                None => !(self@ is Text),
            },
    {
        match self {
            JsonValue::Text(text) => Some(text.clone()),
            _ => None,
        }
    }

    pub fn is_null(&self) -> (held: bool)
        ensures
            held == (self@ is Null),
    {
        matches!(self, JsonValue::Null)
    }

    /// The compact text of the value.
    pub fn to_compact(&self) -> (text: String)
        ensures
            text@ == compact(self@),
    {
        compact_text(self)
    }
}

/// A copy of the value.
fn copy_value(value: &JsonValue) -> (same: JsonValue)
    ensures
        same@ == value@,
    decreases value,
{
    match value {
        JsonValue::Null => JsonValue::Null,
        JsonValue::Bool(held) => JsonValue::Bool(*held),
        JsonValue::Number(spelling) => JsonValue::Number(spelling.clone()),
        JsonValue::Text(text) => JsonValue::Text(text.clone()),
        JsonValue::Array(items) => {
            proof {
                lemma_array_view(*items);
            }
            let ghost models = item_models(items@);
            let mut copies: Vec<JsonValue> = Vec::new();
            let mut i: usize = 0;
            while i < items.len()
                invariant
                    i <= items.len(),
                    value == JsonValue::Array(*items),
                    models == item_models(items@),
                    value@ == Json::Array(models),
                    item_models(copies@) == models.take(i as int),
                decreases items.len() - i,
            {
                assert(models.take(i + 1) =~= models.take(i as int).push(models[i as int]));
                let copy = copy_value(&items[i]);
                add_item(&mut copies, copy);
                i += 1;
            }
            assert(models.take(i as int) =~= models);
            json_array(copies)
        },
        JsonValue::Object(members) => {
            proof {
                lemma_object_view(*members);
            }
            let ghost models = member_models(members@);
            let mut copies: Vec<(String, JsonValue)> = Vec::new();
            let mut i: usize = 0;
            while i < members.len()
                invariant
                    i <= members.len(),
                    value == JsonValue::Object(*members),
                    models == member_models(members@),
                    value@ == Json::Object(models),
                    member_models(copies@) == models.take(i as int),
                decreases members.len() - i,
            {
                assert(models.take(i + 1) =~= models.take(i as int).push(models[i as int]));
                let copy = copy_value(&members[i].1);
                add_member(&mut copies, members[i].0.as_str(), copy);
                i += 1;
            }
            assert(models.take(i as int) =~= models);
            json_object(copies)
        },
    }
}

/// The compact text of the value.
fn compact_text(value: &JsonValue) -> (text: String)
    ensures
        text@ == compact(value@),
    decreases value,
{
    match value {
        JsonValue::Null => "null".to_owned(),
        JsonValue::Bool(held) => if *held {
            "true".to_owned()
        } else {
            "false".to_owned()
        },
        JsonValue::Number(spelling) => spelling.clone(),
        JsonValue::Text(text) => quote(text.as_str()),
        JsonValue::Array(items) => {
            proof {
                lemma_array_view(*items);
            }
            let ghost models = item_models(items@);
            let mut inner = String::new();
            let mut i: usize = 0;
            while i < items.len()
                invariant
                    i <= items.len(),
                    value == JsonValue::Array(*items),
                    models == item_models(items@),
                    value@ == Json::Array(models),
                    inner@ == compact_items(models, i as nat),
                decreases items.len() - i,
            {
                assert(models[i as int] == items@[i as int]@);
                if i > 0 {
                    inner.append(",");
                }
                let item = compact_text(&items[i]);
                inner.append(item.as_str());
                proof {
                    if i == 0 {
                        assert(inner@ =~= item@);
                    }
                }
                i += 1;
            }
            let mut text = "[".to_owned();
            text.append(inner.as_str());
            text.append("]");
            text
        },
        JsonValue::Object(members) => {
            proof {
                lemma_object_view(*members);
            }
            let ghost models = member_models(members@);
            let mut inner = String::new();
            let mut i: usize = 0;
            while i < members.len()
                invariant
                    i <= members.len(),
                    value == JsonValue::Object(*members),
                    models == member_models(members@),
                    value@ == Json::Object(models),
                    inner@ == compact_members(models, i as nat),
                decreases members.len() - i,
            {
                assert(models[i as int] == (members@[i as int].0@, members@[i as int].1@));
                if i > 0 {
                    inner.append(",");
                }
                let key = quote(members[i].0.as_str());
                inner.append(key.as_str());
                inner.append(":");
                let item = compact_text(&members[i].1);
                inner.append(item.as_str());
                proof {
                    if i == 0 {
                        assert(inner@ =~= key@ + ":"@ + item@);
                    }
                }
                i += 1;
            }
            let mut text = "{".to_owned();
            text.append(inner.as_str());
            text.append("}");
            text
        },
    }
}

pub open spec fn count_pair(counts: Option<(usize, usize)>) -> Option<(nat, nat)> {
    match counts {
        Some((nodes, characters)) => Some((nodes as nat, characters as nat)),
        None => None,
    }
}

/// The nodes and string characters once the value is counted too, or `None` once
/// a limit is passed.
pub fn json_fits_budget(value: &JsonValue, nodes: usize, string_chars: usize) -> (counts: Option<
    (usize, usize),
>)
    requires
        nodes <= JSON_SMALL_NODE_LIMIT,
        string_chars <= JSON_SMALL_STRING_CHAR_LIMIT,
    ensures
        count_pair(counts) == counted(value@, nodes as nat, string_chars as nat),
        counts matches Some((n, c)) ==> n <= JSON_SMALL_NODE_LIMIT && c
            <= JSON_SMALL_STRING_CHAR_LIMIT,
    decreases value,
{
    if nodes + 1 > JSON_SMALL_NODE_LIMIT {
        return None;
    }
    match value {
        JsonValue::Text(text) => {
            let len = chars_of(text.as_str()).len();
            if len > JSON_SMALL_STRING_CHAR_LIMIT - string_chars {
                None
            } else {
                Some((nodes + 1, string_chars + len))
            }
        },
        JsonValue::Array(items) => {
            proof {
                lemma_array_view(*items);
            }
            let ghost models = item_models(items@);
            let mut counts: (usize, usize) = (nodes + 1, string_chars);
            let mut i: usize = 0;
            while i < items.len()
                invariant
                    i <= items.len(),
                    value == JsonValue::Array(*items),
                    models == item_models(items@),
                    value@ == Json::Array(models),
                    nodes + 1 <= JSON_SMALL_NODE_LIMIT,
                    counts.0 <= JSON_SMALL_NODE_LIMIT,
                    counts.1 <= JSON_SMALL_STRING_CHAR_LIMIT,
                    counted_items(models, (nodes + 1) as nat, string_chars as nat, i as nat)
                        == Some((counts.0 as nat, counts.1 as nat)),
                decreases items.len() - i,
            {
                assert(models[i as int] == items@[i as int]@);
                match json_fits_budget(&items[i], counts.0, counts.1) {
                    Some(more) => {
                        counts = more;
                    },
                    None => {
                        proof {
                            lemma_counted_items_none(
                                models,
                                (nodes + 1) as nat,
                                string_chars as nat,
                                (i + 1) as nat,
                                models.len(),
                            );
                        }
                        return None;
                    },
                }
                i += 1;
            }
            Some(counts)
        },
        JsonValue::Object(members) => {
            proof {
                lemma_object_view(*members);
            }
            let ghost models = member_models(members@);
            let mut counts: (usize, usize) = (nodes + 1, string_chars);
            let mut i: usize = 0;
            while i < members.len()
                invariant
                    i <= members.len(),
                    value == JsonValue::Object(*members),
                    models == member_models(members@),
                    value@ == Json::Object(models),
                    nodes + 1 <= JSON_SMALL_NODE_LIMIT,
                    counts.0 <= JSON_SMALL_NODE_LIMIT,
                    counts.1 <= JSON_SMALL_STRING_CHAR_LIMIT,
                    counted_members(models, (nodes + 1) as nat, string_chars as nat, i as nat)
                        == Some((counts.0 as nat, counts.1 as nat)),
                decreases members.len() - i,
            {
                assert(models[i as int].1 == members@[i as int].1@);
                match json_fits_budget(&members[i].1, counts.0, counts.1) {
                    Some(more) => {
                        counts = more;
                    },
                    None => {
                        proof {
                            lemma_counted_members_none(
                                models,
                                (nodes + 1) as nat,
                                string_chars as nat,
                                (i + 1) as nat,
                                models.len(),
                            );
                        }
                        return None;
                    },
                }
                i += 1;
            }
            Some(counts)
        },
        _ => Some((nodes + 1, string_chars)),
    }
}

proof fn lemma_counted_items_none(items: Seq<Json>, nodes: nat, characters: nat, k: nat, n: nat)
    requires
        k <= n <= items.len(),
        counted_items(items, nodes, characters, k) is None,
    ensures
        counted_items(items, nodes, characters, n) is None,
    decreases n,
{
    if k < n {
        lemma_counted_items_none(items, nodes, characters, k, (n - 1) as nat);
    }
}

proof fn lemma_counted_members_none(
    members: Seq<(Seq<char>, Json)>,
    nodes: nat,
    characters: nat,
    k: nat,
    n: nat,
)
    requires
        k <= n <= members.len(),
        counted_members(members, nodes, characters, k) is None,
    ensures
        counted_members(members, nodes, characters, n) is None,
    decreases n,
{
    if k < n {
        lemma_counted_members_none(members, nodes, characters, k, (n - 1) as nat);
    }
}

/// Whether a value is written out rather than summarised.
pub fn is_small_json(value: &JsonValue) -> (held: bool)
    ensures
        held == is_small(value@),
{
    json_fits_budget(value, 0, 0).is_some()
}

/// The text that stands for a value.
pub fn value_summary_full(value: &JsonValue) -> (text: String)
    ensures
        text@ == summary(value@),
{
    match value {
        JsonValue::Text(text) => debug_text(text.as_str()),
        JsonValue::Array(items) => {
            if is_small_json(value) {
                value.to_compact()
            } else {
                proof {
                    lemma_array_view(*items);
                }
                let mut text = "<array:".to_owned();
                text.append(count_text(items.len()).as_str());
                text.append(" items>");
                text
            }
        },
        JsonValue::Object(members) => {
            if is_small_json(value) {
                value.to_compact()
            } else {
                proof {
                    lemma_object_view(*members);
                }
                let ghost models = member_models(members@);
                let ghost wanted = key_sample(models)->Array_0;
                let mut keys: Vec<JsonValue> = Vec::new();
                let mut i: usize = 0;
                while i < members.len() && i < 5
                    invariant
                        i <= members.len(),
                        i <= 5,
                        models == member_models(members@),
                        wanted == key_sample(models)->Array_0,
                        item_models(keys@) == wanted.take(i as int),
                    decreases members.len() - i,
                {
                    assert(models[i as int].0 == members@[i as int].0@);
                    assert(wanted.take(i + 1) =~= wanted.take(i as int).push(wanted[i as int]));
                    let key = json_text(members[i].0.as_str());
                    add_item(&mut keys, key);
                    i += 1;
                }
                assert(wanted.take(i as int) =~= wanted);
                let sample = json_array(keys);
                let mut text = "<object:".to_owned();
                text.append(count_text(members.len()).as_str());
                text.append(" keys sample=");
                text.append(sample.to_compact().as_str());
                text.append(">");
                text
            }
        },
        _ => value.to_compact(),
    }
}

/// The text that stands for a value, cut to the given number of characters.
pub fn value_summary(value: &JsonValue, max_chars: usize) -> (clamped: ClampedText)
    ensures
        clamped.text@ == output::clamped(summary(value@), max_chars as nat),
        clamped.truncated == (summary(value@).len() > max_chars),
{
    let full = value_summary_full(value);
    clamp_text_with_status(full.as_str(), max_chars)
}

/// The text that value filters search; no display limit bounds it.
pub fn json_search_text(value: &JsonValue) -> (text: String)
    ensures
        text@ == search_text(value@),
{
    match value {
        JsonValue::Text(text) => text.clone(),
        _ => value_summary_full(value),
    }
}

/// The name of a value's type.
pub fn json_value_type_name(value: &JsonValue) -> (name: &'static str)
    ensures
        name@ == kind_name(value@),
{
    match value {
        JsonValue::Null => "null",
        JsonValue::Bool(_) => "bool",
        JsonValue::Number(_) => "number",
        JsonValue::Text(_) => "string",
        JsonValue::Array(_) => "array",
        JsonValue::Object(_) => "object",
    }
}

/// A key made of letters, digits and underscores that does not start with a
/// digit.
pub open spec fn is_identifier(key: Seq<char>) -> bool {
    &&& key.len() > 0
    &&& !strings::is_digit(key[0])
    &&& forall|i: int|
        0 <= i < key.len() ==> (#[trigger] key[i] == '_' || strings::is_alphanumeric(key[i]))
}

/// Whether a key is a plain identifier.
pub fn is_json_identifier(value: &str) -> (held: bool)
    ensures
        held == is_identifier(value@),
{
    crate::program::is_shell_name(value)
}

/// A member is found under its key if and only if one has that key: what is found is the
/// value of a member with the key, and of members under keys of their own, each is found.
pub proof fn members_are_found_by_key(members: Seq<(Seq<char>, Json)>, key: Seq<char>)
    ensures
        member_of(members, key) is None <==> (forall|i: int|
            0 <= i < members.len() ==> (#[trigger] members[i]).0 != key),
        member_of(members, key) matches Some(value) ==> (exists|i: int|
            0 <= i < members.len() && #[trigger] members[i] == (key, value) && (forall|j: int|
                0 <= j < i ==> (#[trigger] members[j]).0 != key)),
    decreases members.len(),
{
    if members.len() > 0 {
        let rest = members.drop_first();
        members_are_found_by_key(rest, key);
        if members[0].0 == key {
            assert(members[0] == (key, members[0].1));
        } else {
            assert forall|i: int| 0 <= i < rest.len() implies #[trigger] rest[i] == members[i
                + 1] by {}
            if member_of(members, key) is None {
                assert forall|i: int| 0 <= i < members.len() implies (#[trigger] members[i]).0
                    != key by {
                    if i > 0 {
                        assert(rest[i - 1] == members[i]);
                    }
                }
            } else {
                let value = member_of(members, key)->0;
                let i = choose|i: int|
                    0 <= i < rest.len() && #[trigger] rest[i] == (key, value) && (forall|j: int|
                        0 <= j < i ==> (#[trigger] rest[j]).0 != key);
                assert(members[i + 1] == (key, value));
                assert forall|j: int| 0 <= j < i + 1 implies (#[trigger] members[j]).0 != key by {
                    if j > 0 {
                        assert(rest[j - 1] == members[j]);
                    }
                }
            }
        }
    }
}

/// Items and members are written one after another with a comma between them.
pub proof fn compact_text_is_joined(items: Seq<Json>, members: Seq<(Seq<char>, Json)>)
    ensures
        compact(Json::Array(items)) == "["@ + strings::join_texts(
            items.map_values(|item: Json| compact(item)),
            ","@,
        ) + "]"@,
        compact(Json::Object(members)) == "{"@ + strings::join_texts(
            members.map_values(
                |member: (Seq<char>, Json)| json_quoted(member.0) + ":"@ + compact(member.1),
            ),
            ","@,
        ) + "}"@,
{
    let item_texts = items.map_values(|item: Json| compact(item));
    let member_texts = members.map_values(
        |member: (Seq<char>, Json)| json_quoted(member.0) + ":"@ + compact(member.1),
    );
    lemma_items_joined(items, items.len());
    lemma_members_joined(members, members.len());
    assert(item_texts.take(items.len() as int) =~= item_texts);
    assert(member_texts.take(members.len() as int) =~= member_texts);
}

proof fn lemma_items_joined(items: Seq<Json>, n: nat)
    requires
        n <= items.len(),
    ensures
        compact_items(items, n) == strings::join_texts(
            items.map_values(|item: Json| compact(item)).take(n as int),
            ","@,
        ),
    decreases n,
{
    if n > 0 {
        lemma_items_joined(items, (n - 1) as nat);
        let texts = items.map_values(|item: Json| compact(item));
        assert(texts.take(n as int).drop_last() =~= texts.take(n - 1));
        assert(texts.take(n as int).last() == compact(items[n - 1]));
    }
}

proof fn lemma_members_joined(members: Seq<(Seq<char>, Json)>, n: nat)
    requires
        n <= members.len(),
    ensures
        compact_members(members, n) == strings::join_texts(
            members.map_values(
                |member: (Seq<char>, Json)| json_quoted(member.0) + ":"@ + compact(member.1),
            ).take(n as int),
            ","@,
        ),
    decreases n,
{
    if n > 0 {
        lemma_members_joined(members, (n - 1) as nat);
        let texts = members.map_values(
            |member: (Seq<char>, Json)| json_quoted(member.0) + ":"@ + compact(member.1),
        );
        assert(texts.take(n as int).drop_last() =~= texts.take(n - 1));
        assert(texts.take(n as int).last() == json_quoted(members[n - 1].0) + ":"@ + compact(
            members[n - 1].1,
        ));
        if n > 1 {
            assert(compact_members(members, n) =~= compact_members(members, (n - 1) as nat) + ","@
                + (json_quoted(members[n - 1].0) + ":"@ + compact(members[n - 1].1)));
        }
    }
}

} // verus!
