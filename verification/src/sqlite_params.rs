//! What a query is bound to, and what it may do.
use vstd::prelude::*;

use crate::hex;
use crate::json;
use crate::json::{Json, JsonValue};
use crate::json_input;
use crate::json_input::{parse_json_text, parse_jsonl_text, JsonFault};
use crate::json_select::has_text;
use crate::numbers;
use crate::numbers::{count_text, decimal_text, parse_i64};
use crate::strings;
use crate::strings::{
    chars_of, debug_text, same_text, split_first, string_of, strip_prefix, to_lower, trim_of,
    CharClass,
};

verus! {

/// How a file that is bound is read.
#[derive(Debug, Clone, Copy, PartialEq, Eq, Structural)]
pub enum ParamFormat {
    Json,
    Jsonl,
}

impl ParamFormat {
    pub open spec fn flag(self) -> Seq<char> {
        match self {
            ParamFormat::Json => "--json-param"@,
            ParamFormat::Jsonl => "--jsonl-param"@,
        }
    }

    pub open spec fn word(self) -> Seq<char> {
        match self {
            ParamFormat::Json => "json"@,
            ParamFormat::Jsonl => "jsonl"@,
        }
    }

    pub fn flag_text(self) -> (flag: &'static str)
        ensures
            flag@ == self.flag(),
    {
        match self {
            ParamFormat::Json => "--json-param",
            ParamFormat::Jsonl => "--jsonl-param",
        }
    }

    pub fn name(self) -> (name: &'static str)
        ensures
            name@ == self.word(),
    {
        match self {
            ParamFormat::Json => "json",
            ParamFormat::Jsonl => "jsonl",
        }
    }
}

pub open spec fn is_prefix_char(c: char) -> bool {
    c == ':' || c == '@' || c == '$'
}

pub open spec fn is_name_char(c: char) -> bool {
    strings::is_alphanumeric(c) || c == '_'
}

pub open spec fn all_name_chars(body: Seq<char>) -> bool {
    forall|i: int| 0 <= i < body.len() ==> is_name_char(#[trigger] body[i])
}

/// The prefix and the body of a parameter's name; a colon is the prefix of a name
/// that has none.
pub open spec fn name_parts(name: Seq<char>) -> (char, Seq<char>) {
    if is_prefix_char(name[0]) {
        (name[0], name.skip(1))
    } else {
        (':', name)
    }
}

pub open spec fn prefix_text(prefix: char) -> Seq<char> {
    if prefix == ':' {
        "':'"@
    } else if prefix == '@' {
        "'@'"@
    } else {
        "'$'"@
    }
}

/// The name of a parameter as SQL spells it, or why it is none.
pub open spec fn sql_name(name: Seq<char>, flag: Seq<char>) -> Result<Seq<char>, Seq<char>> {
    let bare = strings::trim(name);
    if bare.len() == 0 {
        Err(flag + " requires a non-empty parameter name"@)
    } else {
        let (prefix, body) = name_parts(bare);
        if body.len() == 0 {
            Err(flag + " requires a name after "@ + prefix_text(prefix))
        } else if !all_name_chars(body) {
            Err(
                flag + " parameter name "@ + strings::debug_quoted(bare)
                    + " may contain only ASCII letters, digits, and underscores"@,
            )
        } else {
            Ok(seq![prefix] + body)
        }
    }
}

pub open spec fn text_result(result: Result<String, String>) -> Result<Seq<char>, Seq<char>> {
    match result {
        Ok(text) => Ok(text@),
        Err(text) => Err(text@),
    }
}

/// The name of a parameter as SQL spells it.
pub fn normalize_sqlite_param_name(name: &str, flag: &str) -> (normalized: Result<String, String>)
    ensures
        text_result(normalized) == sql_name(name@, flag@),
{
    let bare = trim_of(name);
    let chars = chars_of(bare.as_str());
    if chars.len() == 0 {
        return Err(flag.to_owned().concat(" requires a non-empty parameter name"));
    }
    let first = chars[0];
    let given = first == ':' || first == '@' || first == '$';
    let (prefix, start): (char, usize) = if given {
        (first, 1)
    } else {
        (':', 0)
    };
    let body = strings::cut(&chars, start, chars.len());
    assert(body@ =~= name_parts(bare@).1);
    if body.len() == 0 {
        let shown = if prefix == ':' {
            "':'"
        } else if prefix == '@' {
            "'@'"
        } else {
            "'$'"
        };
        return Err(flag.to_owned().concat(" requires a name after ").concat(shown));
    }
    let mut i: usize = 0;
    while i < body.len()
        invariant
            i <= body.len(),
            bare@ == strings::trim(name@),
            bare@.len() > 0,
            body@ == name_parts(bare@).1,
            body@.len() > 0,
            forall|k: int| 0 <= k < i ==> is_name_char(#[trigger] body@[k]),
        decreases body.len() - i,
    {
        let c = body[i];
        if !(('0' <= c && c <= '9') || ('A' <= c && c <= 'Z') || ('a' <= c && c <= 'z') || c
            == '_') {
            assert(!is_name_char(body@[i as int]));
            return Err(
                flag.to_owned().concat(" parameter name ").concat(
                    debug_text(bare.as_str()).as_str(),
                ).concat(" may contain only ASCII letters, digits, and underscores"),
            );
        }
        i += 1;
    }
    let mut full: Vec<char> = Vec::new();
    full.push(prefix);
    let mut text = string_of(&full);
    text.append(string_of(&body).as_str());
    assert(text@ =~= seq![prefix] + body@);
    Ok(text)
}

/// The name and the file of a binding `NAME=FILE`, or why it is none.
pub open spec fn file_param(raw: Seq<char>, flag: Seq<char>) -> Result<
    (Seq<char>, Seq<char>),
    Seq<char>,
> {
    match strings::split_at_first(raw, CharClass::Only('=')) {
        None => Err(flag + " requires NAME=FILE, found "@ + strings::debug_quoted(raw)),
        Some((name, path)) => match sql_name(name, flag) {
            Err(message) => Err(message),
            Ok(sql_name) => if strings::trim(path).len() == 0 {
                Err(
                    flag + " requires a non-empty FILE path: "@ + strings::debug_quoted(raw),
                )
            } else {
                Ok((sql_name, strings::trim(path)))
            },
        },
    }
}

/// The name and the file of a binding `NAME=FILE`.
pub fn parse_sqlite_file_param(raw: &str, flag: &str) -> (parsed: Result<
    (String, String),
    String,
>)
    ensures
        match parsed {
            Ok((name, path)) => file_param(raw@, flag@) == Ok::<(Seq<char>, Seq<char>), Seq<char>>(
                (name@, path@),
            ),
            Err(message) => file_param(raw@, flag@) == Err::<(Seq<char>, Seq<char>), Seq<char>>(
                message@,
            ),
        },
{
    match split_first(raw, CharClass::Only('=')) {
        None => Err(
            flag.to_owned().concat(" requires NAME=FILE, found ").concat(debug_text(raw).as_str()),
        ),
        Some((name, path)) => match normalize_sqlite_param_name(name.as_str(), flag) {
            Err(message) => Err(message),
            Ok(sql_name) => {
                let path = trim_of(path.as_str());
                if path.as_str().is_empty() {
                    Err(
                        flag.to_owned().concat(" requires a non-empty FILE path: ").concat(
                            debug_text(raw).as_str(),
                        ),
                    )
                } else {
                    Ok((sql_name, path))
                }
            },
        },
    }
}

/// A file that is to be bound.
#[derive(Debug)]
pub struct FileParamRequest {
    pub sql_name: String,
    pub path: String,
    pub format: ParamFormat,
}

/// The model of a file that is to be bound.
pub struct Binding {
    pub sql_name: Seq<char>,
    pub path: Seq<char>,
    pub format: ParamFormat,
}

impl View for FileParamRequest {
    type V = Binding;

    open spec fn view(&self) -> Binding {
        Binding { sql_name: self.sql_name@, path: self.path@, format: self.format }
    }
}

pub open spec fn binding_models(requests: Seq<FileParamRequest>) -> Seq<Binding> {
    requests.map_values(|request: FileParamRequest| request@)
}

pub open spec fn binds_name(bindings: Seq<Binding>, name: Seq<char>) -> bool {
    exists|i: int| 0 <= i < bindings.len() && (#[trigger] bindings[i]).sql_name == name
}

/// The bindings with one more behind them; each name is bound once.
pub open spec fn with_binding(bindings: Seq<Binding>, raw: Seq<char>, format: ParamFormat) -> Result<
    Seq<Binding>,
    Seq<char>,
> {
    match file_param(raw, format.flag()) {
        Err(message) => Err(message),
        Ok((name, path)) => if binds_name(bindings, name) {
            Err("duplicate sqlite parameter binding "@ + name)
        } else {
            Ok(bindings.push(Binding { sql_name: name, path, format }))
        },
    }
}

/// The first `n` bindings of a format behind those before them.
pub open spec fn bindings_of(
    before: Seq<Binding>,
    raws: Seq<Seq<char>>,
    format: ParamFormat,
    n: nat,
) -> Result<Seq<Binding>, Seq<char>>
    decreases n,
{
    if n == 0 || n > raws.len() {
        Ok(before)
    } else {
        match bindings_of(before, raws, format, (n - 1) as nat) {
            Err(message) => Err(message),
            Ok(bindings) => with_binding(bindings, raws[n - 1], format),
        }
    }
}

pub open spec fn all_bindings(json: Seq<Seq<char>>, jsonl: Seq<Seq<char>>) -> Result<
    Seq<Binding>,
    Seq<char>,
> {
    match bindings_of(Seq::empty(), json, ParamFormat::Json, json.len()) {
        Err(message) => Err(message),
        Ok(bindings) => bindings_of(bindings, jsonl, ParamFormat::Jsonl, jsonl.len()),
    }
}

proof fn lemma_first_fault(
    before: Seq<Binding>,
    raws: Seq<Seq<char>>,
    format: ParamFormat,
    n: nat,
    m: nat,
)
    requires
        n <= m <= raws.len(),
        bindings_of(before, raws, format, n) is Err,
    ensures
        bindings_of(before, raws, format, m) == bindings_of(before, raws, format, n),
    decreases m - n,
{
    if n < m {
        lemma_first_fault(before, raws, format, n, (m - 1) as nat);
    }
}

fn add_bindings(requests: &mut Vec<FileParamRequest>, raws: &[String], format: ParamFormat) -> (verdict:
    Result<(), String>)
    ensures
        match verdict {
            Ok(_) => bindings_of(
                binding_models(old(requests)@),
                strings::texts(raws@),
                format,
                raws@.len(),
            ) == Ok::<Seq<Binding>, Seq<char>>(binding_models(final(requests)@)),
            Err(message) => bindings_of(
                binding_models(old(requests)@),
                strings::texts(raws@),
                format,
                raws@.len(),
            ) == Err::<Seq<Binding>, Seq<char>>(message@),
        },
{
    let ghost before = binding_models(requests@);
    let ghost texts = strings::texts(raws@);
    let mut i: usize = 0;
    while i < raws.len()
        invariant
            i <= raws.len(),
            texts == strings::texts(raws@),
            texts.len() == raws@.len(),
            before == binding_models(old(requests)@),
            bindings_of(before, texts, format, i as nat) == Ok::<Seq<Binding>, Seq<char>>(
                binding_models(requests@),
            ),
        decreases raws.len() - i,
    {
        assert(texts[i as int] == raws@[i as int]@);
        proof {
            if bindings_of(before, texts, format, (i + 1) as nat) is Err {
                lemma_first_fault(before, texts, format, (i + 1) as nat, texts.len());
            }
        }
        if let Err(message) = add_sqlite_file_param(requests, raws[i].as_str(), format) {
            return Err(message);
        }
        i += 1;
    }
    Ok(())
}

/// Adds a file that is to be bound behind those that are; its name may not be bound yet.
pub fn add_sqlite_file_param(
    requests: &mut Vec<FileParamRequest>,
    raw: &str,
    format: ParamFormat,
) -> (verdict: Result<(), String>)
    ensures
        match verdict {
            Ok(_) => with_binding(binding_models(old(requests)@), raw@, format) == Ok::<
                Seq<Binding>,
                Seq<char>,
            >(binding_models(final(requests)@)),
            Err(message) => with_binding(binding_models(old(requests)@), raw@, format) == Err::<
                Seq<Binding>,
                Seq<char>,
            >(message@) && final(requests)@ == old(requests)@,
        },
{
    let (sql_name, path) = match parse_sqlite_file_param(raw, format.flag_text()) {
        Ok(parsed) => parsed,
        Err(message) => {
            return Err(message);
        },
    };
    if is_bound(requests, sql_name.as_str()) {
        return Err("duplicate sqlite parameter binding ".to_owned().concat(sql_name.as_str()));
    }
    let ghost held = binding_models(requests@);
    let request = FileParamRequest { sql_name, path, format };
    let ghost added = request@;
    requests.push(request);
    assert(binding_models(requests@) =~= held.push(added));
    Ok(())
}

fn is_bound(requests: &Vec<FileParamRequest>, name: &str) -> (held: bool)
    ensures
        held == binds_name(binding_models(requests@), name@),
{
    let ghost models = binding_models(requests@);
    let mut i: usize = 0;
    while i < requests.len()
        invariant
            i <= requests.len(),
            models == binding_models(requests@),
            forall|k: int| 0 <= k < i ==> (#[trigger] models[k]).sql_name != name@,
        decreases requests.len() - i,
    {
        assert(models[i as int] == requests@[i as int]@);
        if same_text(requests[i].sql_name.as_str(), name) {
            return true;
        }
        i += 1;
    }
    false
}

/// The files that are to be bound; each name is bound once.
pub fn collect_sqlite_file_params(json_params: &[String], jsonl_params: &[String]) -> (requests: Result<
    Vec<FileParamRequest>,
    String,
>)
    ensures
        match requests {
            Ok(requests) => all_bindings(
                strings::texts(json_params@),
                strings::texts(jsonl_params@),
            ) == Ok::<Seq<Binding>, Seq<char>>(binding_models(requests@)),
            Err(message) => all_bindings(
                strings::texts(json_params@),
                strings::texts(jsonl_params@),
            ) == Err::<Seq<Binding>, Seq<char>>(message@),
        },
{
    let mut requests: Vec<FileParamRequest> = Vec::new();
    assert(binding_models(requests@) =~= Seq::empty());
    assert(strings::texts(json_params@).len() == json_params@.len());
    assert(strings::texts(jsonl_params@).len() == jsonl_params@.len());
    if let Err(message) = add_bindings(&mut requests, json_params, ParamFormat::Json) {
        return Err(message);
    }
    if let Err(message) = add_bindings(&mut requests, jsonl_params, ParamFormat::Jsonl) {
        return Err(message);
    }
    Ok(requests)
}

/// Refuses a file that is larger than a parameter may be.
pub fn check_param_size(path: &str, bytes: u64, max_param_bytes: u64) -> (refusal: Option<String>)
    ensures
        strings::text_option(refusal) == (if bytes > max_param_bytes {
            Some(
                path@ + " is "@ + numbers::decimal(bytes as nat)
                    + " bytes, larger than sqlite --max-param-bytes "@ + numbers::decimal(
                    max_param_bytes as nat,
                ),
            )
        } else {
            None
        }),
{
    if bytes > max_param_bytes {
        Some(
            path.to_owned().concat(" is ").concat(decimal_text(bytes).as_str()).concat(
                " bytes, larger than sqlite --max-param-bytes ",
            ).concat(decimal_text(max_param_bytes).as_str()),
        )
    } else {
        None
    }
}

/// The text that a file is bound as, and how many values `json_each` sees in it.
pub open spec fn bound_json(text: Seq<char>) -> Result<(Seq<char>, Option<nat>), json_input::Fault> {
    match json_input::strict_value(vstd::utf8::encode_utf8(text)) {
        Ok(value) => Ok(
            (
                json::compact(value),
                match value {
                    Json::Array(items) => Some(items.len()),
                    _ => None,
                },
            ),
        ),
        Err(fault) => Err(fault),
    }
}

/// How many JSONL values a text holds, if it is JSONL.
pub open spec fn jsonl_values(text: Seq<char>) -> nat {
    match json_input::strict_rows(text, 0, 1, Seq::empty()) {
        Ok(rows) => rows.len(),
        Err(_) => 0,
    }
}

/// What to say of a file that is no JSON document: that it is JSONL, where it is.
pub open spec fn json_param_error(path: Seq<char>, text: Seq<char>, fault: json_input::Fault) -> Seq<char> {
    if jsonl_values(text) > 1 {
        path + " is not a single JSON document but parses as "@ + numbers::decimal(
            jsonl_values(text),
        ) + " JSONL values; bind it with --jsonl-param instead"@
    } else {
        "failed to parse JSON parameter "@ + path + ": "@ + json_input::fault_message(fault, path)
    }
}

/// What to say of a file that is no JSON document.
pub fn json_param_parse_error(path: &str, text: &str, fault: &JsonFault) -> (message: String)
    ensures
        message@ == json_param_error(path@, text@, fault@),
{
    let values = match parse_jsonl_text(text) {
        Ok(rows) => {
            assert(json::item_models(rows@).len() == rows@.len());
            rows.len()
        },
        Err(_) => 0,
    };
    if values > 1 {
        return path.to_owned().concat(
            " is not a single JSON document but parses as ",
        ).concat(count_text(values).as_str()).concat(
            " JSONL values; bind it with --jsonl-param instead",
        );
    }
    "failed to parse JSON parameter ".to_owned().concat(path).concat(": ").concat(
        fault.message(path).as_str(),
    )
}

/// What a JSON file is bound as, or what to say of it.
pub open spec fn json_param(path: Seq<char>, text: Seq<char>) -> Result<
    (Seq<char>, Option<nat>),
    Seq<char>,
> {
    match bound_json(text) {
        Ok(bound) => Ok(bound),
        Err(fault) => Err(json_param_error(path, text, fault)),
    }
}

/// What a JSONL file is bound as: the array of its values. A lone array is refused,
/// since it would be bound inside another one.
pub open spec fn jsonl_param(path: Seq<char>, text: Seq<char>) -> Result<
    (Seq<char>, Option<nat>),
    Seq<char>,
> {
    match json_input::strict_rows(text, 0, 1, Seq::empty()) {
        Err((line, fault)) => Err(
            "failed to parse JSONL line "@ + numbers::decimal(line) + " in "@ + path
                + "; every non-empty physical line must contain exactly one JSON value: "@
                + json_input::fault_message(fault, path),
        ),
        Ok(rows) => if rows.len() == 1 && rows[0] is Array {
            Err(
                path + " holds a single top-level JSON array ("@ + numbers::decimal(
                    rows[0]->Array_0.len(),
                )
                    + " elements); binding it as JSONL would wrap it to one json_each row — use --json-param instead"@,
            )
        } else {
            Ok((json::compact(Json::Array(rows)), Some(rows.len())))
        },
    }
}

pub open spec fn bound_model(bound: Result<(String, Option<usize>), String>) -> Result<
    (Seq<char>, Option<nat>),
    Seq<char>,
> {
    match bound {
        Ok((text, values)) => Ok(
            (
                text@,
                match values {
                    Some(values) => Some(values as nat),
                    None => None,
                },
            ),
        ),
        Err(message) => Err(message@),
    }
}

/// What a file is bound as, and how many values `json_each` sees in it.
pub fn sqlite_param_value(path: &str, text: &str, format: ParamFormat) -> (bound: Result<
    (String, Option<usize>),
    String,
>)
    ensures
        bound_model(bound) == (match format {
            ParamFormat::Json => json_param(path@, text@),
            ParamFormat::Jsonl => jsonl_param(path@, text@),
        }),
{
    match format {
        ParamFormat::Json => match parse_json_text(text) {
            Ok(value) => {
                let values = match &value {
                    JsonValue::Array(items) => {
                        proof {
                            json::lemma_array_view(*items);
                        }
                        assert(json::item_models(items@).len() == items@.len());
                        Some(items.len())
                    },
                    _ => None,
                };
                Ok((value.to_compact(), values))
            },
            Err(fault) => Err(json_param_parse_error(path, text, &fault)),
        },
        ParamFormat::Jsonl => jsonl_to_json_array_text(path, text),
    }
}

/// What a JSONL file is bound as.
pub fn jsonl_to_json_array_text(path: &str, text: &str) -> (bound: Result<
    (String, Option<usize>),
    String,
>)
    ensures
        bound_model(bound) == jsonl_param(path@, text@),
{
    let rows = match parse_jsonl_text(text) {
        Ok(rows) => rows,
        Err(fault) => {
            return Err(fault.message(path));
        },
    };
    let ghost models = json::item_models(rows@);
    assert(models.len() == rows@.len());
    if rows.len() == 1 {
        assert(models[0] == rows@[0]@);
        if let JsonValue::Array(inner) = &rows[0] {
            proof {
                json::lemma_array_view(*inner);
            }
            assert(json::item_models(inner@).len() == inner@.len());
            return Err(
                path.to_owned().concat(" holds a single top-level JSON array (").concat(
                    count_text(inner.len()).as_str(),
                ).concat(
                    " elements); binding it as JSONL would wrap it to one json_each row — use --json-param instead",
                ),
            );
        }
    }
    let values = rows.len();
    let whole = json::json_array(rows);
    Ok((whole.to_compact(), Some(values)))
}

/// Why the bindings do not fit a statement.
#[derive(Debug)]
pub enum BindFault {
    /// A binding that the statement does not use.
    Unused { name: String },
    /// A parameter without a name.
    Anonymous { index: usize },
    /// A parameter that nothing is bound to.
    Unbound { name: String },
}

impl BindFault {
    pub open spec fn text(&self) -> Seq<char> {
        match self {
            BindFault::Unused { name } => "sqlite parameter binding "@ + name@
                + " was supplied but is not used by the SQL"@,
            BindFault::Anonymous { index } => "anonymous sqlite parameter at index "@
                + numbers::decimal(*index as nat)
                + " is unsupported; use a named parameter like :input"@,
            BindFault::Unbound { name } => "unbound sqlite parameter "@ + name@
                + "; provide --json-param or --jsonl-param"@,
        }
    }

    pub fn message(&self) -> (message: String)
        ensures
            message@ == self.text(),
    {
        match self {
            BindFault::Unused { name } => "sqlite parameter binding ".to_owned().concat(
                name.as_str(),
            ).concat(" was supplied but is not used by the SQL"),
            BindFault::Anonymous { index } => "anonymous sqlite parameter at index ".to_owned().concat(
                count_text(*index).as_str(),
            ).concat(" is unsupported; use a named parameter like :input"),
            BindFault::Unbound { name } => "unbound sqlite parameter ".to_owned().concat(
                name.as_str(),
            ).concat("; provide --json-param or --jsonl-param"),
        }
    }
}

pub open spec fn parameter_names(names: Seq<Option<String>>) -> Seq<Option<Seq<char>>> {
    names.map_values(|name: Option<String>| strings::text_option(name))
}

/// Whether the statement has a parameter of that name.
pub open spec fn uses(names: Seq<Option<Seq<char>>>, name: Seq<char>) -> bool {
    names.contains(Some(name))
}

/// The first binding from here on that the statement does not use.
pub open spec fn first_unused(
    bound: Seq<Seq<char>>,
    names: Seq<Option<Seq<char>>>,
    at: int,
) -> Option<Seq<char>>
    decreases bound.len() - at,
{
    if at < 0 || at >= bound.len() {
        None
    } else if !uses(names, bound[at]) {
        Some(bound[at])
    } else {
        first_unused(bound, names, at + 1)
    }
}

/// The first parameter from here on that nothing is bound to.
pub open spec fn first_unbound(
    bound: Seq<Seq<char>>,
    names: Seq<Option<Seq<char>>>,
    at: int,
) -> Option<int>
    decreases names.len() - at,
{
    if at < 0 || at >= names.len() {
        None
    } else {
        match names[at] {
            Some(name) => if bound.contains(name) {
                first_unbound(bound, names, at + 1)
            } else {
                Some(at)
            },
            None => Some(at),
        }
    }
}

/// Every binding is used, and every parameter is bound: `names` are those of the
/// statement's parameters, in order.
pub fn check_bindings(bound: &[String], names: &[Option<String>]) -> (verdict: Result<(), BindFault>)
    ensures
        ({
            let given = strings::texts(bound@);
            let wanted = parameter_names(names@);
            match verdict {
                Ok(_) => first_unused(given, wanted, 0) is None && first_unbound(
                    given,
                    wanted,
                    0,
                ) is None,
                Err(BindFault::Unused { name }) => first_unused(given, wanted, 0) == Some(name@),
                Err(BindFault::Anonymous { index }) => {
                    &&& first_unused(given, wanted, 0) is None
                    &&& first_unbound(given, wanted, 0) == Some(index - 1)
                    &&& wanted[index - 1] is None
                },
                Err(BindFault::Unbound { name }) => {
                    &&& first_unused(given, wanted, 0) is None
                    &&& first_unbound(given, wanted, 0) is Some
                    &&& wanted[first_unbound(given, wanted, 0)->Some_0] == Some(name@)
                },
            }
        }),
{
    let ghost given = strings::texts(bound@);
    let ghost wanted = parameter_names(names@);
    assert(wanted.len() == names@.len());
    let mut i: usize = 0;
    while i < bound.len()
        invariant
            i <= bound.len(),
            given == strings::texts(bound@),
            wanted == parameter_names(names@),
            first_unused(given, wanted, i as int) == first_unused(given, wanted, 0),
        decreases bound.len() - i,
    {
        assert(given[i as int] == bound@[i as int]@);
        if !names_hold(names, bound[i].as_str()) {
            return Err(BindFault::Unused { name: bound[i].clone() });
        }
        i += 1;
    }
    let mut k: usize = 0;
    while k < names.len()
        invariant
            k <= names.len(),
            given == strings::texts(bound@),
            wanted == parameter_names(names@),
            first_unused(given, wanted, 0) is None,
            first_unbound(given, wanted, k as int) == first_unbound(given, wanted, 0),
        decreases names.len() - k,
    {
        assert(wanted[k as int] == strings::text_option(names@[k as int]));
        match &names[k] {
            Some(name) => {
                if !has_text(bound, name.as_str()) {
                    return Err(BindFault::Unbound { name: name.clone() });
                }
            },
            None => {
                return Err(BindFault::Anonymous { index: k + 1 });
            },
        }
        k += 1;
    }
    Ok(())
}

fn names_hold(names: &[Option<String>], name: &str) -> (held: bool)
    ensures
        held == uses(parameter_names(names@), name@),
{
    let ghost wanted = parameter_names(names@);
    let mut i: usize = 0;
    while i < names.len()
        invariant
            i <= names.len(),
            wanted == parameter_names(names@),
            forall|k: int| 0 <= k < i ==> wanted[k] != Some(name@),
        decreases names.len() - i,
    {
        assert(wanted[i as int] == strings::text_option(names@[i as int]));
        if let Some(known) = &names[i] {
            if same_text(known.as_str(), name) {
                assert(wanted[i as int] == Some(name@));
                return true;
            }
        }
        i += 1;
    }
    false
}

/// The number that hexadecimal digits spell.
pub open spec fn hex_number(digits: Seq<char>) -> int
    decreases digits.len(),
{
    if digits.len() == 0 {
        0
    } else {
        hex_number(digits.drop_last()) * 16 + hex::hex_value(digits.last())->Some_0
    }
}

pub open spec fn all_hex(digits: Seq<char>) -> bool {
    forall|i: int| 0 <= i < digits.len() ==> hex::hex_value(#[trigger] digits[i]) is Some
}

/// The 64-bit number that a sign and hexadecimal digits spell.
pub open spec fn hex_i64(text: Seq<char>) -> Option<int> {
    let signed = text.len() > 0 && (text[0] == '-' || text[0] == '+');
    let digits = if signed {
        text.skip(1)
    } else {
        text
    };
    if digits.len() == 0 || !all_hex(digits) {
        None
    } else {
        let value = if signed && text[0] == '-' {
            -hex_number(digits)
        } else {
            hex_number(digits)
        };
        if i64::MIN <= value <= i64::MAX {
            Some(value)
        } else {
            None
        }
    }
}

/// The integer that a text spells, in hexadecimal behind `0x`, or in decimal.
pub open spec fn hexint_value(text: Seq<char>) -> Option<int> {
    let bare = strings::trim(text);
    match strings::without_prefix(bare, "0x"@) {
        Some(digits) => hex_i64(digits),
        None => match strings::without_prefix(bare, "0X"@) {
            Some(digits) => hex_i64(digits),
            None => numbers::i64_value(bare),
        },
    }
}

proof fn lemma_hex_number_grows(digits: Seq<char>, n: int)
    requires
        0 <= n <= digits.len(),
        all_hex(digits),
    ensures
        0 <= hex_number(digits.take(n)) <= hex_number(digits),
    decreases digits.len(),
{
    if n < digits.len() {
        let fewer = digits.drop_last();
        assert(all_hex(fewer)) by {
            assert forall|i: int| 0 <= i < fewer.len() implies hex::hex_value(
                #[trigger] fewer[i],
            ) is Some by {
                assert(fewer[i] == digits[i]);
            }
        }
        lemma_hex_number_grows(fewer, n);
        assert(fewer.take(n) =~= digits.take(n));
        assert(hex::hex_value(digits[digits.len() - 1]) is Some);
    } else {
        assert(digits.take(n) =~= digits);
        if n > 0 {
            let fewer = digits.drop_last();
            assert(all_hex(fewer)) by {
                assert forall|i: int| 0 <= i < fewer.len() implies hex::hex_value(
                    #[trigger] fewer[i],
                ) is Some by {
                    assert(fewer[i] == digits[i]);
                }
            }
            lemma_hex_number_grows(fewer, n - 1);
            assert(fewer.take(n - 1) =~= fewer);
            assert(hex::hex_value(digits[digits.len() - 1]) is Some);
        }
    }
}

fn hex_digit_value(c: char) -> (value: Option<u64>)
    ensures
        match value {
            Some(value) => value < 16 && hex::hex_value(c) == Some(value as int),
            None => hex::hex_value(c) is None,
        },
{
    if '0' <= c && c <= '9' {
        Some((c as u32 - '0' as u32) as u64)
    } else if 'a' <= c && c <= 'f' {
        Some((c as u32 - 'a' as u32 + 10) as u64)
    } else if 'A' <= c && c <= 'F' {
        Some((c as u32 - 'A' as u32 + 10) as u64)
    } else {
        None
    }
}

fn parse_hex(text: &str) -> (value: Option<i64>)
    ensures
        match value {
            Some(value) => hex_i64(text@) == Some(value as int),
            None => hex_i64(text@) is None,
        },
{
    let chars = chars_of(text);
    let signed = chars.len() > 0 && (chars[0] == '-' || chars[0] == '+');
    let negative = signed && chars[0] == '-';
    let start: usize = if signed {
        1
    } else {
        0
    };
    let digits = strings::cut(&chars, start, chars.len());
    assert(digits@ =~= if signed {
        text@.skip(1)
    } else {
        text@
    });
    if digits.len() == 0 {
        return None;
    }
    let mut total: u64 = 0;
    let mut i: usize = 0;
    assert(digits@.take(0) =~= Seq::empty());
    while i < digits.len()
        invariant
            i <= digits.len(),
            chars@ == text@,
            digits@.len() > 0,
            signed == (text@.len() > 0 && (text@[0] == '-' || text@[0] == '+')),
            digits@ == (if signed {
                text@.skip(1)
            } else {
                text@
            }),
            total <= 0x8000_0000_0000_0000,
            total == hex_number(digits@.take(i as int)),
            forall|k: int| 0 <= k < i ==> hex::hex_value(#[trigger] digits@[k]) is Some,
        decreases digits.len() - i,
    {
        assert(digits@.take(i + 1).drop_last() =~= digits@.take(i as int));
        assert(digits@.take(i + 1).last() == digits@[i as int]);
        match hex_digit_value(digits[i]) {
            None => {
                assert(!all_hex(digits@));
                return None;
            },
            Some(value) => {
                let next: u128 = total as u128 * 16 + value as u128;
                if next > 0x8000_0000_0000_0000 {
                    proof {
                        if all_hex(digits@) {
                            lemma_hex_number_grows(digits@, i + 1);
                        }
                    }
                    return None;
                }
                total = next as u64;
            },
        }
        i += 1;
    }
    assert(digits@.take(i as int) =~= digits@);
    if negative {
        Some((-(total as i128)) as i64)
    } else if total < 0x8000_0000_0000_0000 {
        Some(total as i64)
    } else {
        None
    }
}

/// The integer that a text spells: what the SQL function `hexint` gives for it.
pub fn hexint(text: &str) -> (value: Result<i64, String>)
    ensures
        match value {
            Ok(value) => hexint_value(text@) == Some(value as int),
            Err(message) => {
                &&& hexint_value(text@) is None
                &&& message@ == "hexint: cannot parse "@ + strings::debug_quoted(
                    strings::trim(text@),
                ) + " as 0x-hex or decimal"@
            },
        },
{
    let bare = trim_of(text);
    let value = match strip_prefix(bare.as_str(), "0x") {
        Some(digits) => parse_hex(digits.as_str()),
        None => match strip_prefix(bare.as_str(), "0X") {
            Some(digits) => parse_hex(digits.as_str()),
            None => parse_i64(bare.as_str()),
        },
    };
    match value {
        Some(value) => Ok(value),
        None => Err(
            "hexint: cannot parse ".to_owned().concat(debug_text(bare.as_str()).as_str()).concat(
                " as 0x-hex or decimal",
            ),
        ),
    }
}

/// The pragmas that describe a schema, which alone may be given an argument.
pub open spec fn is_schema_pragma(name: Seq<char>) -> bool {
    name == "table_info"@ || name == "table_xinfo"@ || name == "index_list"@ || name
        == "index_xinfo"@ || name == "foreign_key_list"@ || name == "table_list"@
}

/// Whether a statement may use a pragma: one without an argument only reads.
pub fn allows_pragma(name: &str, has_argument: bool) -> (held: bool)
    ensures
        held == (!has_argument || is_schema_pragma(strings::lower_text(name@))),
{
    if !has_argument {
        return true;
    }
    let lowered = to_lower(name);
    let bare = lowered.as_str();
    same_text(bare, "table_info") || same_text(bare, "table_xinfo") || same_text(
        bare,
        "index_list",
    ) || same_text(bare, "index_xinfo") || same_text(bare, "foreign_key_list") || same_text(
        bare,
        "table_list",
    )
}

/// Whether a text can be a parameter's name behind its prefix.
pub open spec fn is_bare_name(body: Seq<char>) -> bool {
    body.len() > 0 && (forall|i: int|
        0 <= i < body.len() ==> ({
            let c = #[trigger] body[i];
            ('a' <= c <= 'z') || ('A' <= c <= 'Z') || ('0' <= c <= '9') || c == '_'
        }))
}

/// A name without a prefix is the one that SQL spells with a colon, one with a prefix is
/// itself, and white space round it does not count; every name that is accepted is a
/// prefix and letters, digits and underscores.
pub proof fn names_are_spelled_with_a_prefix(body: Seq<char>, name: Seq<char>, flag: Seq<char>)
    ensures
        is_bare_name(body) ==> sql_name(body, flag) == Ok::<Seq<char>, Seq<char>>(seq![':'] + body),
        is_bare_name(body) ==> sql_name(seq![':'] + body, flag) == Ok::<Seq<char>, Seq<char>>(
            seq![':'] + body,
        ),
        is_bare_name(body) ==> sql_name(seq!['@'] + body, flag) == Ok::<Seq<char>, Seq<char>>(
            seq!['@'] + body,
        ),
        is_bare_name(body) ==> sql_name(seq!['$'] + body, flag) == Ok::<Seq<char>, Seq<char>>(
            seq!['$'] + body,
        ),
        sql_name(name, flag) matches Ok(spelled) ==> spelled.len() > 1 && (spelled[0] == ':'
            || spelled[0] == '@' || spelled[0] == '$') && is_bare_name(spelled.skip(1)),
        sql_name(name, flag) == sql_name(strings::trim(name), flag) || sql_name(name, flag) is Err,
{
    if is_bare_name(body) {
        assert(body.contains(body[0]) && body.contains(body.last()));
        assert(all_name_chars(body));
        strings::trimmed_text_stays(body);
        let colon = seq![':'] + body;
        let at = seq!['@'] + body;
        let dollar = seq!['$'] + body;
        assert(colon.last() == body.last() && at.last() == body.last() && dollar.last()
            == body.last());
        strings::trimmed_text_stays(colon);
        strings::trimmed_text_stays(at);
        strings::trimmed_text_stays(dollar);
        assert(colon.skip(1) =~= body);
        assert(at.skip(1) =~= body);
        assert(dollar.skip(1) =~= body);
    }
    match sql_name(name, flag) {
        Ok(spelled) => {
            let bare = strings::trim(name);
            let (prefix, rest) = name_parts(bare);
            assert(spelled.skip(1) =~= rest);
            strings::trimming_takes_space_off_both_ends(name);
            strings::trimmed_text_stays(bare);
        },
        Err(_) => {},
    }
}

/// Every parameter that is given is bound, in order and with its format, and no two are
/// bound to the same name.
pub proof fn parameters_are_bound_once(json: Seq<Seq<char>>, jsonl: Seq<Seq<char>>, i: int, j: int)
    requires
        all_bindings(json, jsonl) is Ok,
    ensures
        ({
            let bindings = all_bindings(json, jsonl)->Ok_0;
            &&& bindings.len() == json.len() + jsonl.len()
            &&& 0 <= i < j < bindings.len() ==> bindings[i].sql_name != bindings[j].sql_name
            &&& 0 <= i < json.len() ==> bindings[i].format == ParamFormat::Json && file_param(
                json[i],
                "--json-param"@,
            ) == Ok::<(Seq<char>, Seq<char>), Seq<char>>((bindings[i].sql_name, bindings[i].path))
            &&& 0 <= i < jsonl.len() ==> ({
                let bound = bindings[json.len() + i];
                bound.format == ParamFormat::Jsonl && file_param(jsonl[i], "--jsonl-param"@)
                    == Ok::<(Seq<char>, Seq<char>), Seq<char>>((bound.sql_name, bound.path))
            })
        }),
{
    let first = bindings_of(Seq::empty(), json, ParamFormat::Json, json.len())->Ok_0;
    lemma_bindings(Seq::empty(), json, ParamFormat::Json, json.len());
    lemma_bindings(first, jsonl, ParamFormat::Jsonl, jsonl.len());
    let all = all_bindings(json, jsonl)->Ok_0;
    if 0 <= i < json.len() {
        assert(all[i] == first[i]);
        assert(first[0 + i].format == ParamFormat::Json);
    }
    if 0 <= i < jsonl.len() {
        assert(all[first.len() + i].format == ParamFormat::Jsonl);
    }
}

spec fn names_differ(bindings: Seq<Binding>) -> bool {
    forall|i: int, j: int|
        0 <= i < j < bindings.len() ==> (#[trigger] bindings[i]).sql_name != (
        #[trigger] bindings[j]).sql_name
}

proof fn lemma_bindings(before: Seq<Binding>, raws: Seq<Seq<char>>, format: ParamFormat, n: nat)
    requires
        n <= raws.len(),
        bindings_of(before, raws, format, n) is Ok,
        names_differ(before),
    ensures
        ({
            let bindings = bindings_of(before, raws, format, n)->Ok_0;
            &&& names_differ(bindings)
            &&& bindings.len() == before.len() + n
            &&& before.is_prefix_of(bindings)
            &&& forall|k: int|
                before.len() <= k < bindings.len() ==> (#[trigger] bindings[k]).format == format
                    && file_param(raws[k - before.len()], format.flag()) == Ok::<
                    (Seq<char>, Seq<char>),
                    Seq<char>,
                >((bindings[k].sql_name, bindings[k].path))
        }),
    decreases n,
{
    if n > 0 {
        lemma_bindings(before, raws, format, (n - 1) as nat);
        let less = bindings_of(before, raws, format, (n - 1) as nat)->Ok_0;
        let bindings = bindings_of(before, raws, format, n)->Ok_0;
        assert(bindings =~= less.push(bindings.last()));
        assert forall|i: int, j: int| 0 <= i < j < bindings.len() implies (
        #[trigger] bindings[i]).sql_name != (#[trigger] bindings[j]).sql_name by {
            assert(bindings[i] == less[i]);
            if j < less.len() {
                assert(bindings[j] == less[j]);
            }
        }
        assert forall|k: int| before.len() <= k < bindings.len() implies (
        #[trigger] bindings[k]).format == format && file_param(
            raws[k - before.len()],
            format.flag(),
        ) == Ok::<(Seq<char>, Seq<char>), Seq<char>>((bindings[k].sql_name, bindings[k].path)) by {
            if k < less.len() {
                assert(bindings[k] == less[k]);
            }
        }
    }
}

/// A parameter is cut at its first `=`: its name stands before it, and behind it the path
/// of its file without the white space round it.
pub proof fn parameters_are_cut_at_the_first_equals(
    name: Seq<char>,
    path: Seq<char>,
    flag: Seq<char>,
)
    requires
        is_bare_name(name),
        strings::trim(path).len() > 0,
    ensures
        file_param(name + seq!['='] + path, flag) == Ok::<(Seq<char>, Seq<char>), Seq<char>>(
            (seq![':'] + name, strings::trim(path)),
        ),
{
    let raw = name + seq!['='] + path;
    names_are_spelled_with_a_prefix(name, name, flag);
    strings::lemma_find_class_bounds(raw, CharClass::Only('='), 0);
    let at = strings::find_class(raw, CharClass::Only('='), 0);
    assert(raw[name.len() as int] == '=');
    if at < name.len() {
        assert(raw[at] == name[at]);
    }
    assert(at == name.len());
    assert(raw.subrange(0, at) =~= name);
    assert(raw.subrange(at + 1, raw.len() as int) =~= path);
}

/// All bindings are used if and only if each of them is a parameter of the statement,
/// and all parameters are bound if and only if each of them has a name that is bound.
pub proof fn bindings_and_parameters_meet(bound: Seq<Seq<char>>, names: Seq<Option<Seq<char>>>)
    ensures
        first_unused(bound, names, 0) is None <==> (forall|i: int|
            0 <= i < bound.len() ==> names.contains(Some(#[trigger] bound[i]))),
        first_unbound(bound, names, 0) is None <==> (forall|i: int|
            0 <= i < names.len() ==> (#[trigger] names[i]) is Some && bound.contains(names[i]->0)),
        first_unused(bound, names, 0) matches Some(name) ==> bound.contains(name)
            && !names.contains(Some(name)),
        first_unbound(bound, names, 0) matches Some(i) ==> 0 <= i < names.len() && (names[i] is None
            || !bound.contains(names[i]->0)),
{
    lemma_unused(bound, names, 0);
    lemma_unbound(bound, names, 0);
}

proof fn lemma_unused(bound: Seq<Seq<char>>, names: Seq<Option<Seq<char>>>, at: int)
    requires
        0 <= at <= bound.len(),
    ensures
        first_unused(bound, names, at) is None <==> (forall|i: int|
            at <= i < bound.len() ==> names.contains(Some(#[trigger] bound[i]))),
        first_unused(bound, names, at) matches Some(name) ==> bound.contains(name)
            && !names.contains(Some(name)),
    decreases bound.len() - at,
{
    if at < bound.len() {
        lemma_unused(bound, names, at + 1);
    }
}

proof fn lemma_unbound(bound: Seq<Seq<char>>, names: Seq<Option<Seq<char>>>, at: int)
    requires
        0 <= at <= names.len(),
    ensures
        first_unbound(bound, names, at) is None <==> (forall|i: int|
            at <= i < names.len() ==> (#[trigger] names[i]) is Some && bound.contains(names[i]->0)),
        first_unbound(bound, names, at) matches Some(i) ==> at <= i < names.len() && (
        names[i] is None || !bound.contains(names[i]->0)),
    decreases names.len() - at,
{
    if at < names.len() {
        lemma_unbound(bound, names, at + 1);
    }
}

/// Hexadecimal digits are read by place: each counts sixteen times the one behind it.
/// They stand behind `0x` in either case, and without it a number is read as decimal.
pub proof fn hexadecimal_is_read_by_place(digits: Seq<char>, last: char, n: nat)
    requires
        all_hex(digits),
        digits.len() > 0,
    ensures
        hex_number(digits.push(last)) == 16 * hex_number(digits) + hex::hex_value(last)->0,
        hex_number(seq![last]) == hex::hex_value(last)->0,
        hexint_value(seq!['0', 'x'] + digits) == hexint_value(seq!['0', 'X'] + digits),
        0 <= hex_number(digits) <= i64::MAX ==> hexint_value(seq!['0', 'x'] + digits) == Some(
            hex_number(digits),
        ),
        n <= i64::MAX ==> hexint_value(numbers::decimal(n)) == Some(n as int),
{
    assert(digits.push(last).drop_last() =~= digits);
    assert(seq![last].drop_last() =~= Seq::empty());
    assert(hex_number(seq![last].drop_last()) == 0);
    reveal_strlit("0x");
    reveal_strlit("0X");
    assert("0x"@ =~= seq!['0', 'x']);
    assert("0X"@ =~= seq!['0', 'X']);
    let low = seq!['0', 'x'] + digits;
    let high = seq!['0', 'X'] + digits;
    assert(hex::hex_value(digits.last()) is Some);
    assert(hex::hex_value(digits[0]) is Some);
    assert(low.last() == digits.last() && high.last() == digits.last());
    strings::trimmed_text_stays(low);
    strings::trimmed_text_stays(high);
    assert("0x"@ =~= low.take(2));
    assert("0X"@ =~= high.take(2));
    assert(low.subrange(2, low.len() as int) =~= digits);
    assert(high.subrange(2, high.len() as int) =~= digits);
    assert(!"0x"@.is_prefix_of(high)) by {
        assert(high[1] == 'X');
        if "0x"@.is_prefix_of(high) {
            assert(high[1] == "0x"@[1]);
        }
    }
    let text = numbers::decimal(n);
    numbers::lemma_decimal_reads_back(n);
    assert(strings::is_digit(text[0]) && strings::is_digit(text[text.len() - 1]));
    strings::trimmed_text_stays(text);
    if "0x"@.is_prefix_of(text) {
        assert(text[1] == "0x"@[1]);
        assert(strings::is_digit(text[1]));
    }
    if "0X"@.is_prefix_of(text) {
        assert(text[1] == "0X"@[1]);
        assert(strings::is_digit(text[1]));
    }
}

} // verus!
