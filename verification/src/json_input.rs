//! Strict JSON and JSONL input: keys are unique in every object, nesting is
//! bounded, and every non-empty physical line of JSONL is exactly one value.
use vstd::prelude::*;

use crate::json;
use crate::json::{read_document, read_string, Json, JsonValue};
use crate::numbers;
use crate::numbers::{count_text, decimal_text};
use crate::shell_text;
use crate::shell_text::end_of_line;
use crate::strings;
use crate::strings::{chars_of, cut_string, debug_text, same_text, trim_of};

verus! {

/// How many bytes of a JSON document are read into memory unless told otherwise.
pub const DEFAULT_MAX_JSON_DOCUMENT_BYTES: u64 = 67_108_864;

/// How deep arrays and objects may nest.
pub const MAX_JSON_DEPTH: usize = 256;

/// Why a text is no acceptable JSON value.
#[derive(Debug)]
pub enum JsonFault {
    TooDeep,
    UnexpectedEnd,
    ExpectedString { at: usize },
    UnterminatedString,
    InvalidKey { detail: String },
    DuplicateKey { key: String },
    ExpectedColon { at: usize },
    ExpectedMemberEnd { at: usize },
    ExpectedItemEnd { at: usize },
    Trailing { at: usize },
    Unreadable { detail: String },
}

/// The model of a fault.
pub enum Fault {
    TooDeep,
    UnexpectedEnd,
    ExpectedString { at: int },
    UnterminatedString,
    InvalidKey { detail: Seq<char> },
    DuplicateKey { key: Seq<char> },
    ExpectedColon { at: int },
    ExpectedMemberEnd { at: int },
    ExpectedItemEnd { at: int },
    Trailing { at: int },
    Unreadable { detail: Seq<char> },
}

impl View for JsonFault {
    type V = Fault;

    open spec fn view(&self) -> Fault {
        match self {
            JsonFault::TooDeep => Fault::TooDeep,
            JsonFault::UnexpectedEnd => Fault::UnexpectedEnd,
            JsonFault::ExpectedString { at } => Fault::ExpectedString { at: *at as int },
            JsonFault::UnterminatedString => Fault::UnterminatedString,
            JsonFault::InvalidKey { detail } => Fault::InvalidKey { detail: detail@ },
            JsonFault::DuplicateKey { key } => Fault::DuplicateKey { key: key@ },
            JsonFault::ExpectedColon { at } => Fault::ExpectedColon { at: *at as int },
            JsonFault::ExpectedMemberEnd { at } => Fault::ExpectedMemberEnd { at: *at as int },
            JsonFault::ExpectedItemEnd { at } => Fault::ExpectedItemEnd { at: *at as int },
            JsonFault::Trailing { at } => Fault::Trailing { at: *at as int },
            JsonFault::Unreadable { detail } => Fault::Unreadable { detail: detail@ },
        }
    }
}

/// What is said of a fault in a file.
pub open spec fn fault_message(fault: Fault, path: Seq<char>) -> Seq<char> {
    match fault {
        Fault::TooDeep => "JSON nesting exceeds 256 levels in "@ + path,
        Fault::UnexpectedEnd => "unexpected end of JSON in "@ + path,
        Fault::ExpectedString { at } => "expected JSON string in "@ + path + " at byte "@
            + numbers::decimal(at as nat),
        Fault::UnterminatedString => "unterminated JSON string in "@ + path,
        Fault::InvalidKey { detail } => "invalid object key in "@ + path + ": "@ + detail,
        Fault::DuplicateKey { key } => "duplicate JSON object key "@ + strings::debug_quoted(key)
            + " in "@ + path,
        Fault::ExpectedColon { at } => "expected ':' after object key in "@ + path + " at byte "@
            + numbers::decimal(at as nat),
        Fault::ExpectedMemberEnd { at } => "expected ',' or '}' in "@ + path + " at byte "@
            + numbers::decimal(at as nat),
        Fault::ExpectedItemEnd { at } => "expected ',' or ']' in "@ + path + " at byte "@
            + numbers::decimal(at as nat),
        Fault::Trailing { at } => "trailing JSON content in "@ + path + " at byte "@
            + numbers::decimal(at as nat),
        Fault::Unreadable { detail } => "failed to parse JSON value in "@ + path + ": "@ + detail,
    }
}

fn located(what: &str, path: &str, at: usize) -> (message: String)
    ensures
        message@ == what@ + path@ + " at byte "@ + numbers::decimal(at as nat),
{
    let mut message = what.to_owned();
    message.append(path);
    message.append(" at byte ");
    message.append(count_text(at).as_str());
    message
}

impl JsonFault {
    /// What is said of the fault in a file.
    pub fn message(&self, path: &str) -> (message: String)
        ensures
            message@ == fault_message(self@, path@),
    {
        match self {
            JsonFault::TooDeep => "JSON nesting exceeds 256 levels in ".to_owned().concat(path),
            JsonFault::UnexpectedEnd => "unexpected end of JSON in ".to_owned().concat(path),
            JsonFault::ExpectedString { at } => located("expected JSON string in ", path, *at),
            JsonFault::UnterminatedString => "unterminated JSON string in ".to_owned().concat(path),
            JsonFault::InvalidKey { detail } => "invalid object key in ".to_owned().concat(
                path,
            ).concat(": ").concat(detail.as_str()),
            JsonFault::DuplicateKey { key } => "duplicate JSON object key ".to_owned().concat(
                debug_text(key.as_str()).as_str(),
            ).concat(" in ").concat(path),
            JsonFault::ExpectedColon { at } => located(
                "expected ':' after object key in ",
                path,
                *at,
            ),
            JsonFault::ExpectedMemberEnd { at } => located("expected ',' or '}' in ", path, *at),
            JsonFault::ExpectedItemEnd { at } => located("expected ',' or ']' in ", path, *at),
            JsonFault::Trailing { at } => located("trailing JSON content in ", path, *at),
            JsonFault::Unreadable { detail } => "failed to parse JSON value in ".to_owned().concat(
                path,
            ).concat(": ").concat(detail.as_str()),
        }
    }
}

pub open spec fn is_blank(byte: u8) -> bool {
    byte == 0x20 || byte == 0x09 || byte == 0x0a || byte == 0x0c || byte == 0x0d
}

/// The first position from `at` on that holds no blank.
pub open spec fn past_blanks(bytes: Seq<u8>, at: int) -> int
    decreases bytes.len() - at,
{
    if at < 0 || at >= bytes.len() || !is_blank(bytes[at]) {
        at
    } else {
        past_blanks(bytes, at + 1)
    }
}

/// The position after the quote that closes a string, read on from `at`.
pub open spec fn string_end(bytes: Seq<u8>, at: int, escaped: bool) -> Option<int>
    decreases bytes.len() - at,
{
    if at < 0 || at >= bytes.len() {
        None
    } else if escaped {
        string_end(bytes, at + 1, false)
    } else if bytes[at] == 0x5c {
        string_end(bytes, at + 1, true)
    } else if bytes[at] == 0x22 {
        Some(at + 1)
    } else {
        string_end(bytes, at + 1, false)
    }
}

pub open spec fn ends_scalar(byte: u8) -> bool {
    byte == 0x2c || byte == 0x5d || byte == 0x7d || byte == 0x20 || byte == 0x09 || byte == 0x0d
        || byte == 0x0a
}

/// The end of the number or word that starts at `at`.
pub open spec fn scalar_end(bytes: Seq<u8>, at: int) -> int
    decreases bytes.len() - at,
{
    if at < 0 || at >= bytes.len() || ends_scalar(bytes[at]) {
        at
    } else {
        scalar_end(bytes, at + 1)
    }
}

/// Whether `byte` stands at `at`.
pub open spec fn byte_at(bytes: Seq<u8>, at: int, byte: u8) -> bool {
    0 <= at < bytes.len() && bytes[at] == byte
}

/// The end of the string that is to start at `at`.
pub open spec fn scanned_string(bytes: Seq<u8>, at: int) -> Result<int, Fault> {
    if !byte_at(bytes, at, 0x22) {
        Err(Fault::ExpectedString { at })
    } else {
        match string_end(bytes, at + 1, false) {
            Some(end) => Ok(end),
            None => Err(Fault::UnterminatedString),
        }
    }
}

/// The end of the value that is to start at or after `at`, `depth` containers
/// deep; what is wrong with its structure or its keys otherwise.
pub open spec fn scanned_value(bytes: Seq<u8>, at: int, depth: nat) -> Result<int, Fault>
    decreases bytes.len() - at, 1nat,
{
    let start = past_blanks(bytes, at);
    proof {
        lemma_past_blanks_bounds(bytes, at);
    }
    if depth > MAX_JSON_DEPTH {
        Err(Fault::TooDeep)
    } else if at < 0 || start >= bytes.len() {
        Err(Fault::UnexpectedEnd)
    } else if bytes[start] == 0x7b {
        scanned_members(bytes, start + 1, depth + 1, Set::empty())
    } else if bytes[start] == 0x5b {
        scanned_items(bytes, start + 1, depth + 1)
    } else if bytes[start] == 0x22 {
        scanned_string(bytes, start)
    } else {
        Ok(scalar_end(bytes, start))
    }
}

/// The end of the object whose members are read on from `at`, after the given
/// keys.
pub open spec fn scanned_members(
    bytes: Seq<u8>,
    at: int,
    depth: nat,
    keys: Set<Seq<char>>,
) -> Result<int, Fault>
    decreases bytes.len() - at, 0nat,
{
    let start = past_blanks(bytes, at);
    proof {
        lemma_past_blanks_bounds(bytes, at);
    }
    if at < 0 || at > bytes.len() {
        Err(Fault::UnexpectedEnd)
    } else if byte_at(bytes, start, 0x7d) {
        Ok(start + 1)
    } else {
        match scanned_string(bytes, start) {
            Err(fault) => Err(fault),
            Ok(end) => {
                proof {
                    lemma_string_end_bounds(bytes, start + 1, false);
                    lemma_past_blanks_bounds(bytes, end);
                }
                let colon = past_blanks(bytes, end);
                match json::json_string_read(bytes.subrange(start, end)) {
                    Err(detail) => Err(Fault::InvalidKey { detail }),
                    Ok(key) => if keys.contains(key) {
                        Err(Fault::DuplicateKey { key })
                    } else if !byte_at(bytes, colon, 0x3a) {
                        Err(Fault::ExpectedColon { at: colon })
                    } else {
                        match scanned_value(bytes, colon + 1, depth) {
                            Err(fault) => Err(fault),
                            Ok(value_end) => {
                                let next = past_blanks(bytes, value_end);
                                if byte_at(bytes, next, 0x2c) {
                                    if next >= at {
                                        scanned_members(bytes, next + 1, depth, keys.insert(key))
                                    } else {
                                        arbitrary()
                                    }
                                } else if byte_at(bytes, next, 0x7d) {
                                    Ok(next + 1)
                                } else {
                                    Err(Fault::ExpectedMemberEnd { at: next })
                                }
                            },
                        }
                    },
                }
            },
        }
    }
}

/// The end of the array whose items are read on from `at`.
pub open spec fn scanned_items(bytes: Seq<u8>, at: int, depth: nat) -> Result<int, Fault>
    decreases bytes.len() - at, 2nat,
{
    let start = past_blanks(bytes, at);
    proof {
        lemma_past_blanks_bounds(bytes, at);
    }
    if at < 0 || at > bytes.len() {
        Err(Fault::UnexpectedEnd)
    } else if byte_at(bytes, start, 0x5d) {
        Ok(start + 1)
    } else {
        match scanned_value(bytes, start, depth) {
            Err(fault) => Err(fault),
            Ok(value_end) => {
                let next = past_blanks(bytes, value_end);
                if byte_at(bytes, next, 0x2c) {
                    if next >= at {
                        scanned_items(bytes, next + 1, depth)
                    } else {
                        arbitrary()
                    }
                } else if byte_at(bytes, next, 0x5d) {
                    Ok(next + 1)
                } else {
                    Err(Fault::ExpectedItemEnd { at: next })
                }
            },
        }
    }
}

/// The value that the bytes hold, and hold alone, or why they do not.
pub open spec fn strict_value(bytes: Seq<u8>) -> Result<Json, Fault> {
    match scanned_value(bytes, 0, 0) {
        Err(fault) => Err(fault),
        Ok(end) => if past_blanks(bytes, end) != bytes.len() {
            Err(Fault::Trailing { at: past_blanks(bytes, end) })
        } else {
            match json::json_read(bytes) {
                Ok(value) => Ok(value),
                Err(detail) => Err(Fault::Unreadable { detail }),
            }
        },
    }
}

pub proof fn lemma_past_blanks_bounds(bytes: Seq<u8>, at: int)
    ensures
        at <= past_blanks(bytes, at),
        0 <= at <= bytes.len() ==> past_blanks(bytes, at) <= bytes.len(),
    decreases bytes.len() - at,
{
    if 0 <= at < bytes.len() && is_blank(bytes[at]) {
        lemma_past_blanks_bounds(bytes, at + 1);
    }
}

pub proof fn lemma_string_end_bounds(bytes: Seq<u8>, at: int, escaped: bool)
    ensures
        string_end(bytes, at, escaped) matches Some(end) ==> at < end <= bytes.len(),
    decreases bytes.len() - at,
{
    if 0 <= at < bytes.len() {
        lemma_string_end_bounds(bytes, at + 1, false);
        lemma_string_end_bounds(bytes, at + 1, true);
    }
}

proof fn lemma_scalar_end_bounds(bytes: Seq<u8>, at: int)
    requires
        0 <= at <= bytes.len(),
    ensures
        at <= scalar_end(bytes, at) <= bytes.len(),
    decreases bytes.len() - at,
{
    if at < bytes.len() && !ends_scalar(bytes[at]) {
        lemma_scalar_end_bounds(bytes, at + 1);
    }
}

/// A scan never goes back, nor past the end.
pub proof fn lemma_value_bounds(bytes: Seq<u8>, at: int, depth: nat)
    requires
        0 <= at <= bytes.len(),
    ensures
        scanned_value(bytes, at, depth) matches Ok(end) ==> at <= end <= bytes.len(),
    decreases bytes.len() - at, 1nat,
{
    let start = past_blanks(bytes, at);
    lemma_past_blanks_bounds(bytes, at);
    if depth <= MAX_JSON_DEPTH && start < bytes.len() {
        if bytes[start] == 0x7b {
            lemma_members_bounds(bytes, start + 1, depth + 1, Set::empty());
        } else if bytes[start] == 0x5b {
            lemma_items_bounds(bytes, start + 1, depth + 1);
        } else if bytes[start] == 0x22 {
            lemma_string_end_bounds(bytes, start + 1, false);
        } else {
            lemma_scalar_end_bounds(bytes, start);
        }
    }
}

proof fn lemma_members_bounds(bytes: Seq<u8>, at: int, depth: nat, keys: Set<Seq<char>>)
    requires
        0 <= at <= bytes.len(),
    ensures
        scanned_members(bytes, at, depth, keys) matches Ok(end) ==> at <= end <= bytes.len(),
    decreases bytes.len() - at, 0nat,
{
    let start = past_blanks(bytes, at);
    lemma_past_blanks_bounds(bytes, at);
    lemma_string_end_bounds(bytes, start + 1, false);
    match scanned_string(bytes, start) {
        Err(_) => {},
        Ok(end) => {
            lemma_past_blanks_bounds(bytes, end);
            let colon = past_blanks(bytes, end);
            match json::json_string_read(bytes.subrange(start, end)) {
                Err(_) => {},
                Ok(key) => {
                    if byte_at(bytes, colon, 0x3a) {
                        lemma_value_bounds(bytes, colon + 1, depth);
                        match scanned_value(bytes, colon + 1, depth) {
                            Err(_) => {},
                            Ok(value_end) => {
                                lemma_past_blanks_bounds(bytes, value_end);
                                let next = past_blanks(bytes, value_end);
                                if byte_at(bytes, next, 0x2c) {
                                    lemma_members_bounds(bytes, next + 1, depth, keys.insert(key));
                                }
                            },
                        }
                    }
                },
            }
        },
    }
}

proof fn lemma_items_bounds(bytes: Seq<u8>, at: int, depth: nat)
    requires
        0 <= at <= bytes.len(),
    ensures
        scanned_items(bytes, at, depth) matches Ok(end) ==> at <= end <= bytes.len(),
    decreases bytes.len() - at, 2nat,
{
    let start = past_blanks(bytes, at);
    lemma_past_blanks_bounds(bytes, at);
    lemma_value_bounds(bytes, start, depth);
    match scanned_value(bytes, start, depth) {
        Err(_) => {},
        Ok(value_end) => {
            lemma_past_blanks_bounds(bytes, value_end);
            let next = past_blanks(bytes, value_end);
            if byte_at(bytes, next, 0x2c) {
                lemma_items_bounds(bytes, next + 1, depth);
            }
        },
    }
}

/// The result of a scan, as its model.
pub open spec fn scan_model(scan: Result<usize, JsonFault>) -> Result<int, Fault> {
    match scan {
        Ok(end) => Ok(end as int),
        Err(fault) => Err(fault@),
    }
}

/// Checks the structure of JSON bytes and that no object has a key twice.
pub struct JsonKeyScanner<'a> {
    pub bytes: &'a [u8],
}

impl<'a> JsonKeyScanner<'a> {
    pub fn skip_whitespace(&self, from: usize) -> (at: usize)
        requires
            from <= self.bytes.len(),
        ensures
            at == past_blanks(self.bytes@, from as int),
            from <= at <= self.bytes.len(),
    {
        let bytes = self.bytes;
        let mut at: usize = from;
        while at < bytes.len() && (bytes[at] == 0x20 || bytes[at] == 0x09 || bytes[at] == 0x0a
            || bytes[at] == 0x0c || bytes[at] == 0x0d)
            invariant
                from <= at <= bytes.len(),
                past_blanks(bytes@, at as int) == past_blanks(bytes@, from as int),
            decreases bytes.len() - at,
        {
            at += 1;
        }
        at
    }

    /// The end of the string that starts at `from`.
    pub fn scan_string(&self, from: usize) -> (scan: Result<usize, JsonFault>)
        requires
            from <= self.bytes.len(),
        ensures
            scan_model(scan) == scanned_string(self.bytes@, from as int),
            scan matches Ok(end) ==> from + 2 <= end <= self.bytes.len(),
    {
        let bytes = self.bytes;
        if from >= bytes.len() || bytes[from] != 0x22 {
            return Err(JsonFault::ExpectedString { at: from });
        }
        let mut at: usize = from + 1;
        let mut escaped = false;
        while at < bytes.len()
            invariant
                from + 1 <= at <= bytes.len(),
                byte_at(bytes@, from as int, 0x22),
                string_end(bytes@, at as int, escaped) == string_end(bytes@, from + 1, false),
                bytes == self.bytes,
            decreases bytes.len() - at,
        {
            let byte = bytes[at];
            at += 1;
            if escaped {
                escaped = false;
            } else if byte == 0x5c {
                escaped = true;
            } else if byte == 0x22 {
                return Ok(at);
            }
        }
        Err(JsonFault::UnterminatedString)
    }

    /// The end of the value that starts at or after `at`.
    pub fn scan_value(&self, at: usize, depth: usize) -> (scan: Result<usize, JsonFault>)
        requires
            at <= self.bytes.len(),
        ensures
            scan_model(scan) == scanned_value(self.bytes@, at as int, depth as nat),
            scan matches Ok(end) ==> at <= end <= self.bytes.len(),
        decreases self.bytes@.len() - at, 1nat,
    {
        if depth > MAX_JSON_DEPTH {
            return Err(JsonFault::TooDeep);
        }
        let start = self.skip_whitespace(at);
        if start >= self.bytes.len() {
            return Err(JsonFault::UnexpectedEnd);
        }
        let byte = self.bytes[start];
        if byte == 0x7b {
            self.scan_object(start + 1, depth + 1)
        } else if byte == 0x5b {
            self.scan_array(start + 1, depth + 1)
        } else if byte == 0x22 {
            self.scan_string(start)
        } else {
            let bytes = self.bytes;
            let mut end: usize = start;
            while end < bytes.len() && !(bytes[end] == 0x2c || bytes[end] == 0x5d || bytes[end]
                == 0x7d || bytes[end] == 0x20 || bytes[end] == 0x09 || bytes[end] == 0x0d
                || bytes[end] == 0x0a)
                invariant
                    start <= end <= bytes.len(),
                    scalar_end(bytes@, end as int) == scalar_end(bytes@, start as int),
                decreases bytes.len() - end,
            {
                end += 1;
            }
            Ok(end)
        }
    }

    /// The end of the object whose members start at `from`.
    pub fn scan_object(&self, from: usize, depth: usize) -> (scan: Result<usize, JsonFault>)
        requires
            from <= self.bytes.len(),
        ensures
            scan_model(scan) == scanned_members(
                self.bytes@,
                from as int,
                depth as nat,
                Set::empty(),
            ),
            scan matches Ok(end) ==> from <= end <= self.bytes.len(),
        decreases self.bytes@.len() - from, 0nat,
    {
        let mut keys: Vec<String> = Vec::new();
        let mut at: usize = from;
        let ghost wanted = scanned_members(
            self.bytes@,
            from as int,
            depth as nat,
            Set::<Seq<char>>::empty(),
        );
        assert(key_set(keys@) =~= Set::empty());
        loop
            invariant
                from <= at <= self.bytes.len(),
                wanted == scanned_members(
                    self.bytes@,
                    from as int,
                    depth as nat,
                    Set::<Seq<char>>::empty(),
                ),
                scanned_members(self.bytes@, at as int, depth as nat, key_set(keys@)) == wanted,
            decreases self.bytes.len() - at,
        {
            let start = self.skip_whitespace(at);
            if start < self.bytes.len() && self.bytes[start] == 0x7d {
                return Ok(start + 1);
            }
            let end = match self.scan_string(start) {
                Ok(end) => end,
                Err(fault) => {
                    return Err(fault);
                },
            };
            let quoted = slice_of(self.bytes, start, end);
            let key = match read_string(&quoted) {
                Ok(key) => key,
                Err(detail) => {
                    return Err(JsonFault::InvalidKey { detail });
                },
            };
            if has_key(&keys, key.as_str()) {
                return Err(JsonFault::DuplicateKey { key });
            }
            let colon = self.skip_whitespace(end);
            if colon >= self.bytes.len() || self.bytes[colon] != 0x3a {
                return Err(JsonFault::ExpectedColon { at: colon });
            }
            let value_end = match self.scan_value(colon + 1, depth) {
                Ok(value_end) => value_end,
                Err(fault) => {
                    return Err(fault);
                },
            };
            let next = self.skip_whitespace(value_end);
            if next < self.bytes.len() && self.bytes[next] == 0x2c {
                let ghost before = keys@;
                keys.push(key);
                proof {
                    lemma_key_set_push(before, key);
                }
                at = next + 1;
            } else if next < self.bytes.len() && self.bytes[next] == 0x7d {
                return Ok(next + 1);
            } else {
                return Err(JsonFault::ExpectedMemberEnd { at: next });
            }
        }
    }

    /// The end of the array whose items start at `from`.
    pub fn scan_array(&self, from: usize, depth: usize) -> (scan: Result<usize, JsonFault>)
        requires
            from <= self.bytes.len(),
        ensures
            scan_model(scan) == scanned_items(self.bytes@, from as int, depth as nat),
            scan matches Ok(end) ==> from <= end <= self.bytes.len(),
        decreases self.bytes@.len() - from, 2nat,
    {
        let mut at: usize = from;
        let ghost wanted = scanned_items(self.bytes@, from as int, depth as nat);
        loop
            invariant
                from <= at <= self.bytes.len(),
                wanted == scanned_items(self.bytes@, from as int, depth as nat),
                scanned_items(self.bytes@, at as int, depth as nat) == wanted,
            decreases self.bytes.len() - at,
        {
            let start = self.skip_whitespace(at);
            if start < self.bytes.len() && self.bytes[start] == 0x5d {
                return Ok(start + 1);
            }
            let value_end = match self.scan_value(start, depth) {
                Ok(value_end) => value_end,
                Err(fault) => {
                    return Err(fault);
                },
            };
            let next = self.skip_whitespace(value_end);
            if next < self.bytes.len() && self.bytes[next] == 0x2c {
                at = next + 1;
            } else if next < self.bytes.len() && self.bytes[next] == 0x5d {
                return Ok(next + 1);
            } else {
                return Err(JsonFault::ExpectedItemEnd { at: next });
            }
        }
    }
}

spec fn key_set(keys: Seq<String>) -> Set<Seq<char>> {
    strings::texts(keys).to_set()
}

proof fn lemma_key_set_push(keys: Seq<String>, key: String)
    ensures
        key_set(keys.push(key)) == key_set(keys).insert(key@),
{
    let before = strings::texts(keys);
    let after = strings::texts(keys.push(key));
    assert(after =~= before.push(key@));
    assert forall|k: Seq<char>| after.contains(k) <==> (before.contains(k) || k == key@) by {
        if before.contains(k) {
            let i = choose|i: int| 0 <= i < before.len() && before[i] == k;
            assert(after[i] == k);
        }
        if k == key@ {
            assert(after[before.len() as int] == k);
        }
    }
    assert(key_set(keys.push(key)) =~= key_set(keys).insert(key@));
}

fn has_key(keys: &Vec<String>, key: &str) -> (held: bool)
    ensures
        held == key_set(keys@).contains(key@),
{
    let ghost all = strings::texts(keys@);
    let mut i: usize = 0;
    while i < keys.len()
        invariant
            i <= keys.len(),
            all == strings::texts(keys@),
            forall|k: int| 0 <= k < i ==> #[trigger] all[k] != key@,
        decreases keys.len() - i,
    {
        assert(all[i as int] == keys@[i as int]@);
        if same_text(keys[i].as_str(), key) {
            assert(all.contains(key@));
            return true;
        }
        i += 1;
    }
    assert(!all.contains(key@));
    false
}

/// The bytes from `from` up to `to`.
pub fn slice_of(bytes: &[u8], from: usize, to: usize) -> (part: Vec<u8>)
    requires
        from <= to <= bytes.len(),
    ensures
        part@ == bytes@.subrange(from as int, to as int),
{
    let mut part: Vec<u8> = Vec::new();
    let mut i: usize = from;
    while i < to
        invariant
            from <= i <= to <= bytes.len(),
            part@ == bytes@.subrange(from as int, i as int),
        decreases to - i,
    {
        part.push(bytes[i]);
        i += 1;
    }
    part
}

/// The result of a read, as its model.
pub open spec fn read_model(read: Result<JsonValue, JsonFault>) -> Result<Json, Fault> {
    match read {
        Ok(value) => Ok(value@),
        Err(fault) => Err(fault@),
    }
}

/// The value that the bytes hold, and hold alone.
pub fn parse_json_bytes(bytes: &[u8]) -> (read: Result<JsonValue, JsonFault>)
    ensures
        read_model(read) == strict_value(bytes@),
        read matches Ok(value) ==> json::addressable(value@),
{
    let scanner = JsonKeyScanner { bytes };
    let end = match scanner.scan_value(0, 0) {
        Ok(end) => end,
        Err(fault) => {
            return Err(fault);
        },
    };
    let rest = scanner.skip_whitespace(end);
    if rest != bytes.len() {
        return Err(JsonFault::Trailing { at: rest });
    }
    match read_document(bytes) {
        Ok(value) => Ok(value),
        Err(detail) => Err(JsonFault::Unreadable { detail }),
    }
}

/// The value that a text holds, and holds alone.
pub fn parse_json_text(text: &str) -> (read: Result<JsonValue, JsonFault>)
    ensures
        read_model(read) == strict_value(vstd::utf8::encode_utf8(text@)),
        read matches Ok(value) ==> json::addressable(value@),
{
    parse_json_bytes(text.as_bytes())
}

/// A fault in a JSONL text, and the physical line that it is on.
#[derive(Debug)]
pub struct JsonlFault {
    pub line: usize,
    pub fault: JsonFault,
}

impl JsonlFault {
    /// What is said of the fault in a file.
    pub fn message(&self, path: &str) -> (message: String)
        ensures
            message@ == "failed to parse JSONL line "@ + numbers::decimal(self.line as nat) + " in "@
                + path@
                + "; every non-empty physical line must contain exactly one JSON value: "@
                + fault_message(self.fault@, path@),
    {
        "failed to parse JSONL line ".to_owned().concat(count_text(self.line).as_str()).concat(
            " in ",
        ).concat(path).concat(
            "; every non-empty physical line must contain exactly one JSON value: ",
        ).concat(self.fault.message(path).as_str())
    }
}

/// The values of the lines from `from` on, which is on line `line`, after those
/// read before; or the first faulty line and its fault. Blank lines count but
/// hold nothing.
pub open spec fn strict_rows(text: Seq<char>, from: int, line: nat, read: Seq<Json>) -> Result<
    Seq<Json>,
    (nat, Fault),
>
    decreases text.len() - from,
{
    if from < 0 || from >= text.len() {
        Ok(read)
    } else {
        proof {
            strings::lemma_find_class_bounds(text, strings::CharClass::Only('\n'), from);
        }
        let end = shell_text::line_end(text, from);
        let bare = strings::trim(text.subrange(from, end));
        if bare.len() == 0 {
            strict_rows(text, end, line + 1, read)
        } else {
            match strict_value(vstd::utf8::encode_utf8(bare)) {
                Ok(value) => strict_rows(text, end, line + 1, read.push(value)),
                Err(fault) => Err((line, fault)),
            }
        }
    }
}

/// The values of the non-empty physical lines of a text.
pub fn parse_jsonl_text(text: &str) -> (rows: Result<Vec<JsonValue>, JsonlFault>)
    ensures
        match rows {
            Ok(rows) => strict_rows(text@, 0, 1, Seq::empty()) == Ok::<Seq<Json>, (nat, Fault)>(
                json::item_models(rows@),
            ) && json::addressable(Json::Array(json::item_models(rows@))),
            Err(fault) => strict_rows(text@, 0, 1, Seq::empty()) == Err::<Seq<Json>, (nat, Fault)>(
                (fault.line as nat, fault.fault@),
            ),
        },
{
    let chars = chars_of(text);
    let mut rows: Vec<JsonValue> = Vec::new();
    let mut at: usize = 0;
    let mut line: usize = 0;
    assert(json::item_models(rows@) =~= Seq::empty());
    while at < chars.len()
        invariant
            chars@ == text@,
            at <= chars.len(),
            line <= at,
            strict_rows(text@, at as int, (line + 1) as nat, json::item_models(rows@))
                == strict_rows(text@, 0, 1, Seq::empty()),
            forall|i: int|
                0 <= i < rows.len() ==> json::addressable(
                    #[trigger] json::item_models(rows@)[i],
                ),
        decreases chars.len() - at,
    {
        let end = end_of_line(&chars, at);
        let bare = trim_of(cut_string(&chars, at, end).as_str());
        line += 1;
        if !bare.as_str().is_empty() {
            match parse_json_text(bare.as_str()) {
                Ok(value) => {
                    let ghost before = json::item_models(rows@);
                    json::add_item(&mut rows, value);
                    assert(json::item_models(rows@) == before.push(value@));
                    assert forall|i: int| 0 <= i < rows.len() implies json::addressable(
                        #[trigger] json::item_models(rows@)[i],
                    ) by {
                        if i < before.len() {
                            assert(json::item_models(rows@)[i] == before[i]);
                        }
                    }
                },
                Err(fault) => {
                    return Err(JsonlFault { line, fault });
                },
            }
        }
        at = end;
    }
    assert(json::item_models(rows@).len() == rows.len());
    Ok(rows)
}

/// How a text was read.
#[derive(Debug, Clone, Copy, PartialEq, Eq, Structural)]
pub enum InputFormat {
    Json,
    Jsonl,
}

impl InputFormat {
    pub fn name(self) -> (name: &'static str)
        ensures
            name@ == match self {
                InputFormat::Json => "json"@,
                InputFormat::Jsonl => "jsonl"@,
            },
    {
        match self {
            InputFormat::Json => "json",
            InputFormat::Jsonl => "jsonl",
        }
    }
}

/// Why a text is neither JSON nor JSONL.
#[derive(Debug)]
pub struct DocumentFault {
    /// What keeps the whole text from being a JSON value.
    pub whole: JsonFault,
    /// The first line that is no JSON value; none where there is no line.
    pub line: Option<JsonlFault>,
}

impl DocumentFault {
    /// What is said of the fault in a file.
    pub fn message(&self, path: &str) -> (message: String)
        ensures
            message@ == match self.line {
                Some(line) => "failed to parse JSON (whole document: "@ + fault_message(
                    self.whole@,
                    path@,
                ) + "); failed to parse JSONL line "@ + numbers::decimal(line.line as nat) + ": "@
                    + fault_message(line.fault@, path@),
                None => "failed to parse JSON: "@ + fault_message(self.whole@, path@),
            },
    {
        match &self.line {
            Some(line) => "failed to parse JSON (whole document: ".to_owned().concat(
                self.whole.message(path).as_str(),
            ).concat("); failed to parse JSONL line ").concat(
                count_text(line.line).as_str(),
            ).concat(": ").concat(line.fault.message(path).as_str()),
            None => "failed to parse JSON: ".to_owned().concat(self.whole.message(path).as_str()),
        }
    }
}

/// A text as one JSON value, or else as JSONL, which is the array of its lines'
/// values. A text without a value is neither.
pub fn parse_json_or_jsonl(text: &str) -> (read: Result<(JsonValue, InputFormat), DocumentFault>)
    ensures
        ({
            let whole = strict_value(vstd::utf8::encode_utf8(text@));
            let rows = strict_rows(text@, 0, 1, Seq::empty());
            match read {
                Ok((value, InputFormat::Json)) => whole == Ok::<Json, Fault>(value@),
                Ok((value, InputFormat::Jsonl)) => whole is Err && rows is Ok && rows->Ok_0.len()
                    > 0 && value@ == Json::Array(rows->Ok_0),
                Err(fault) => whole == Err::<Json, Fault>(fault.whole@) && match fault.line {
                    Some(line) => rows == Err::<Seq<Json>, (nat, Fault)>(
                        (line.line as nat, line.fault@),
                    ),
                    None => rows == Ok::<Seq<Json>, (nat, Fault)>(Seq::empty()),
                },
            }
        }),
        read matches Ok((value, _)) ==> json::addressable(value@),
{
    match parse_json_text(text) {
        Ok(value) => Ok((value, InputFormat::Json)),
        Err(whole) => match parse_jsonl_text(text) {
            Err(line) => Err(DocumentFault { whole, line: Some(line) }),
            Ok(rows) => {
                if rows.len() > 0 {
                    Ok((json::json_array(rows), InputFormat::Jsonl))
                } else {
                    assert(json::item_models(rows@) =~= Seq::empty());
                    Err(DocumentFault { whole, line: None })
                }
            },
        },
    }
}

/// Whether a document may be read into memory.
#[derive(Debug, Clone, Copy, PartialEq, Eq, Structural)]
pub enum DocumentBudget {
    Fits,
    /// A budget of nothing is no budget.
    Zero,
    TooLarge,
}

/// Whether a document of `bytes` may be read into memory under a bound.
pub fn require_materialization_budget(bytes: u64, max_document_bytes: u64) -> (budget:
    DocumentBudget)
    ensures
        budget == if max_document_bytes == 0 {
            DocumentBudget::Zero
        } else if bytes > max_document_bytes {
            DocumentBudget::TooLarge
        } else {
            DocumentBudget::Fits
        },
{
    if max_document_bytes == 0 {
        DocumentBudget::Zero
    } else if bytes > max_document_bytes {
        DocumentBudget::TooLarge
    } else {
        DocumentBudget::Fits
    }
}

/// The text of a document if its size is within the bound, and the message of
/// the refusal otherwise.
pub fn read_bounded_json_text(path: &str, bytes: u64, max_document_bytes: u64) -> (refusal: Option<
    String,
>)
    ensures
        match refusal {
            None => 0 < max_document_bytes && bytes <= max_document_bytes,
            Some(message) => if max_document_bytes == 0 {
                message@ == "--max-document-bytes must be greater than zero"@
            } else {
                bytes > max_document_bytes && message@ == path@ + " is "@ + numbers::decimal(
                    bytes as nat,
                ) + " bytes, above --max-document-bytes "@ + numbers::decimal(
                    max_document_bytes as nat,
                )
                    + "; use JSONL for streaming or raise the explicit materialization bound"@
            },
        },
{
    match require_materialization_budget(bytes, max_document_bytes) {
        DocumentBudget::Fits => None,
        DocumentBudget::Zero => Some("--max-document-bytes must be greater than zero".to_owned()),
        DocumentBudget::TooLarge => Some(
            path.to_owned().concat(" is ").concat(decimal_text(bytes).as_str()).concat(
                " bytes, above --max-document-bytes ",
            ).concat(decimal_text(max_document_bytes).as_str()).concat(
                "; use JSONL for streaming or raise the explicit materialization bound",
            ),
        ),
    }
}

/// What a chunk of input did to the line that is being read.
#[derive(Debug, Clone, Copy, PartialEq, Eq, Structural)]
pub struct PhysicalLineRead {
    /// How many bytes of the chunk belong to the line and its end.
    pub consumed: usize,
    /// Whether the line is complete.
    pub complete: bool,
}

/// The position of the first line feed, or the length.
pub open spec fn line_feed(bytes: Seq<u8>, at: int) -> int
    decreases bytes.len() - at,
{
    if at < 0 || at >= bytes.len() {
        bytes.len() as int
    } else if bytes[at] == 0x0a {
        at
    } else {
        line_feed(bytes, at + 1)
    }
}

/// A line without a carriage return at its end.
pub open spec fn without_return(line: Seq<u8>) -> Seq<u8> {
    if line.len() > 0 && line.last() == 0x0d {
        line.drop_last()
    } else {
        line
    }
}

pub open spec fn oversized_message(path: Seq<char>, physical_line: nat, max: nat) -> Seq<char> {
    "JSONL line "@ + numbers::decimal(physical_line) + " in "@ + path
        + " exceeds --max-document-bytes "@ + numbers::decimal(max)
        + "; raise the bound only if this is an intentional single-record payload"@
}

/// Adds what a chunk of input holds of the line that is being read. An empty
/// chunk is the end of the input, which completes a line that holds something. A
/// line longer than the bound is refused before it is stored.
pub fn read_bounded_physical_line(
    available: &[u8],
    line: &mut Vec<u8>,
    path: &str,
    physical_line: usize,
    max_record_bytes: u64,
) -> (read: Result<PhysicalLineRead, String>)
    ensures
        ({
            let feed = line_feed(available@, 0);
            let grown = old(line)@ + available@.take(feed);
            match read {
                Err(message) => {
                    &&& grown.len() > max_record_bytes
                    &&& available@.len() > 0
                    &&& message@ == oversized_message(
                        path@,
                        physical_line as nat,
                        max_record_bytes as nat,
                    )
                    &&& final(line)@ == old(line)@
                },
                Ok(step) => if available@.len() == 0 {
                    &&& step == (PhysicalLineRead { consumed: 0, complete: old(line)@.len() > 0 })
                    &&& final(line)@ == old(line)@
                } else if feed < available@.len() {
                    &&& grown.len() <= max_record_bytes
                    &&& step.consumed == feed + 1
                    &&& step.complete
                    &&& final(line)@ == without_return(grown)
                } else {
                    &&& grown.len() <= max_record_bytes
                    &&& step.consumed == feed
                    &&& !step.complete
                    &&& final(line)@ == grown
                },
            }
        }),
{
    if available.len() == 0 {
        return Ok(PhysicalLineRead { consumed: 0, complete: line.len() > 0 });
    }
    let mut feed: usize = 0;
    while feed < available.len() && available[feed] != 0x0a
        invariant
            feed <= available.len(),
            line_feed(available@, feed as int) == line_feed(available@, 0),
        decreases available.len() - feed,
    {
        feed += 1;
    }
    if line.len() as u128 + feed as u128 > max_record_bytes as u128 {
        return Err(
            "JSONL line ".to_owned().concat(count_text(physical_line).as_str()).concat(
                " in ",
            ).concat(path).concat(" exceeds --max-document-bytes ").concat(
                decimal_text(max_record_bytes).as_str(),
            ).concat("; raise the bound only if this is an intentional single-record payload"),
        );
    }
    let ghost before = line@;
    let mut i: usize = 0;
    assert(before + available@.take(0) =~= before);
    while i < feed
        invariant
            i <= feed <= available.len(),
            line@ == before + available@.take(i as int),
        decreases feed - i,
    {
        line.push(available[i]);
        assert(before + available@.take(i + 1) =~= (before + available@.take(i as int)).push(
            available@[i as int],
        ));
        i += 1;
    }
    if feed < available.len() {
        if line.len() > 0 && line[line.len() - 1] == 0x0d {
            line.pop();
        }
        Ok(PhysicalLineRead { consumed: feed + 1, complete: true })
    } else {
        Ok(PhysicalLineRead { consumed: feed, complete: false })
    }
}

/// Whether a line holds nothing but blanks.
pub fn is_blank_line(line: &[u8]) -> (held: bool)
    ensures
        held == (past_blanks(line@, 0) == line@.len()),
{
    let scanner = JsonKeyScanner { bytes: line };
    scanner.skip_whitespace(0) == line.len()
}

/// The values of a file of records are those of its lines, each for itself: a line that
/// is blank gives none, any other one its value, and a faulty one its number.
pub proof fn records_are_read_line_by_line(
    line: Seq<char>,
    rest: Seq<char>,
    number: nat,
    read: Seq<Json>,
)
    requires
        !line.contains('\n'),
    ensures
        ({
            let text = line + seq!['\n'] + rest;
            let bare = strings::trim(line.push('\n'));
            &&& bare.len() == 0 ==> strict_rows(text, 0, number, read) == strict_rows(
                rest,
                0,
                number + 1,
                read,
            )
            &&& bare.len() > 0 ==> match strict_value(vstd::utf8::encode_utf8(bare)) {
                Ok(value) => strict_rows(text, 0, number, read) == strict_rows(
                    rest,
                    0,
                    number + 1,
                    read.push(value),
                ),
                Err(fault) => strict_rows(text, 0, number, read) == Err::<Seq<Json>, (nat, Fault)>(
                    (number, fault),
                ),
            }
        }),
        strict_rows(Seq::empty(), 0, number, read) == Ok::<Seq<Json>, (nat, Fault)>(read),
{
    let text = line + seq!['\n'] + rest;
    let class = strings::CharClass::Only('\n');
    strings::lemma_find_class_bounds(text, class, 0);
    let at = strings::find_class(text, class, 0);
    assert(text[line.len() as int] == '\n');
    if at < line.len() {
        assert(text[at] == line[at]);
        assert(line.contains(line[at]));
    }
    assert(at == line.len());
    let end = shell_text::line_end(text, 0);
    assert(end == line.len() + 1);
    assert(text.subrange(0, end) =~= line.push('\n'));
    assert(text.skip(end) =~= rest);
    lemma_rows_move(text, rest, end, 0, number + 1, read);
    match strict_value(vstd::utf8::encode_utf8(strings::trim(line.push('\n')))) {
        Ok(value) => {
            lemma_rows_move(text, rest, end, 0, number + 1, read.push(value));
        },
        Err(_) => {},
    }
}

proof fn lemma_rows_move(
    text: Seq<char>,
    rest: Seq<char>,
    by: int,
    from: int,
    line: nat,
    read: Seq<Json>,
)
    requires
        0 <= by <= text.len(),
        text.skip(by) == rest,
        0 <= from,
    ensures
        strict_rows(text, by + from, line, read) == strict_rows(rest, from, line, read),
    decreases rest.len() - from,
{
    if from < rest.len() {
        let class = strings::CharClass::Only('\n');
        lemma_line_moves(text, rest, by, from);
        strings::lemma_find_class_bounds(rest, class, from);
        let end = shell_text::line_end(rest, from);
        assert(text.subrange(by + from, by + end) =~= rest.subrange(from, end));
        lemma_rows_move(text, rest, by, end, line + 1, read);
        let bare = strings::trim(rest.subrange(from, end));
        match strict_value(vstd::utf8::encode_utf8(bare)) {
            Ok(value) => {
                lemma_rows_move(text, rest, by, end, line + 1, read.push(value));
            },
            Err(_) => {},
        }
    }
}

proof fn lemma_line_moves(text: Seq<char>, rest: Seq<char>, by: int, from: int)
    requires
        0 <= by <= text.len(),
        text.skip(by) == rest,
        0 <= from <= rest.len(),
    ensures
        strings::find_class(text, strings::CharClass::Only('\n'), by + from) == by
            + strings::find_class(rest, strings::CharClass::Only('\n'), from),
        from < rest.len() ==> from < shell_text::line_end(rest, from) <= rest.len(),
    decreases rest.len() - from,
{
    strings::lemma_find_class_bounds(rest, strings::CharClass::Only('\n'), from);
    if from < rest.len() {
        assert(text[by + from] == rest[from]);
        lemma_line_moves(text, rest, by, from + 1);
    }
}

} // verus!
