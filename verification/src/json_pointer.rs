//! JSON Pointers: how a value inside a document is addressed.
use vstd::prelude::*;

use crate::json;
use crate::json::{Json, JsonValue};
use crate::numbers;
use crate::numbers::{count_text, parse_usize};
use crate::strings;
use crate::strings::{chars_of, cut_string, CharClass};

verus! {

/// Why a text is no pointer.
#[derive(Debug, Clone, Copy, PartialEq, Eq, Structural)]
pub enum PointerFault {
    /// It is not empty and does not start with a slash.
    NoSlash,
    /// A tilde is followed by this character.
    BadEscape(char),
    /// A tilde ends a token.
    OpenEscape,
}

impl PointerFault {
    /// What is said of the fault in a pointer.
    pub fn message(self, pointer: &str) -> (message: String)
        ensures
            message@ == fault_message(self, pointer@),
    {
        match self {
            PointerFault::NoSlash => "JSON pointer must be empty or start with /: ".to_owned().concat(
                pointer,
            ),
            PointerFault::BadEscape(c) => {
                let mut message = "invalid JSON pointer escape: ~".to_owned();
                message.push(c);
                message.append("; expected ~0 or ~1");
                message
            },
            PointerFault::OpenEscape =>
                "invalid JSON pointer escape at end of token; expected ~0 or ~1".to_owned(),
        }
    }
}

pub open spec fn fault_message(fault: PointerFault, pointer: Seq<char>) -> Seq<char> {
    match fault {
        PointerFault::NoSlash => "JSON pointer must be empty or start with /: "@ + pointer,
        PointerFault::BadEscape(c) => "invalid JSON pointer escape: ~"@.push(c)
            + "; expected ~0 or ~1"@,
        PointerFault::OpenEscape =>
            "invalid JSON pointer escape at end of token; expected ~0 or ~1"@,
    }
}

/// The token from `i` on with its escapes resolved, after `read`.
pub open spec fn decoded(token: Seq<char>, i: int, read: Seq<char>) -> Result<
    Seq<char>,
    PointerFault,
>
    decreases token.len() - i,
{
    if i < 0 || i >= token.len() {
        Ok(read)
    } else if token[i] != '~' {
        decoded(token, i + 1, read.push(token[i]))
    } else if i + 1 >= token.len() {
        Err(PointerFault::OpenEscape)
    } else if token[i + 1] == '0' {
        decoded(token, i + 2, read.push('~'))
    } else if token[i + 1] == '1' {
        decoded(token, i + 2, read.push('/'))
    } else {
        Err(PointerFault::BadEscape(token[i + 1]))
    }
}

/// A key as a token: `~` becomes `~0`, and `/` becomes `~1`.
pub open spec fn encoded(key: Seq<char>) -> Seq<char>
    decreases key.len(),
{
    if key.len() == 0 {
        Seq::empty()
    } else {
        encoded(key.drop_last()) + (if key.last() == '~' {
            seq!['~', '0']
        } else if key.last() == '/' {
            seq!['~', '1']
        } else {
            seq![key.last()]
        })
    }
}

/// The tokens of a pointer from `from` on, where a token starts, after those
/// `read`.
pub open spec fn tokens_from(pointer: Seq<char>, from: int, read: Seq<Seq<char>>) -> Result<
    Seq<Seq<char>>,
    PointerFault,
>
    decreases pointer.len() - from,
{
    if from < 0 || from > pointer.len() {
        Ok(read)
    } else {
        proof {
            strings::lemma_find_class_bounds(pointer, CharClass::Only('/'), from);
        }
        let end = strings::find_class(pointer, CharClass::Only('/'), from);
        match decoded(pointer.subrange(from, end), 0, Seq::empty()) {
            Err(fault) => Err(fault),
            Ok(token) => if end >= pointer.len() {
                Ok(read.push(token))
            } else {
                tokens_from(pointer, end + 1, read.push(token))
            },
        }
    }
}

/// The tokens of a pointer; the empty pointer has none.
pub open spec fn pointer_tokens(pointer: Seq<char>) -> Result<Seq<Seq<char>>, PointerFault> {
    if pointer.len() == 0 {
        Ok(Seq::empty())
    } else if pointer[0] != '/' {
        Err(PointerFault::NoSlash)
    } else {
        tokens_from(pointer, 1, Seq::empty())
    }
}

/// What the token leads to from a value.
pub open spec fn child(value: Json, token: Seq<char>) -> Option<Json> {
    match value {
        Json::Object(members) => json::member_of(members, token),
        Json::Array(items) => match numbers::unsigned_value(token, usize::MAX as int) {
            Some(index) => if index < items.len() {
                Some(items[index])
            } else {
                None
            },
            None => None,
        },
        _ => None,
    }
}

/// What the tokens from `i` on lead to from a value.
pub open spec fn descend(value: Json, tokens: Seq<Seq<char>>, i: int) -> Option<Json>
    decreases tokens.len() - i,
{
    if i < 0 || i >= tokens.len() {
        Some(value)
    } else {
        match child(value, tokens[i]) {
            Some(next) => descend(next, tokens, i + 1),
            None => None,
        }
    }
}

/// The value that a pointer addresses in a document.
pub open spec fn looked_up(value: Json, pointer: Seq<char>) -> Result<Option<Json>, PointerFault> {
    match pointer_tokens(pointer) {
        Err(fault) => Err(fault),
        Ok(tokens) => Ok(descend(value, tokens, 0)),
    }
}

/// Whether a selector is a pointer rather than a bare key.
pub open spec fn is_pointer(selector: Seq<char>) -> bool {
    selector.len() == 0 || selector[0] == '/'
}

/// The value that a selector, a bare key or a pointer, picks from a row.
pub open spec fn selected(value: Json, selector: Seq<char>) -> Result<Option<Json>, PointerFault> {
    if is_pointer(selector) {
        looked_up(value, selector)
    } else {
        match value {
            Json::Object(members) => Ok(json::member_of(members, selector)),
            _ => Ok(None),
        }
    }
}

/// What is wrong with the syntax of a selector.
pub open spec fn selector_fault(selector: Seq<char>) -> Option<PointerFault> {
    if is_pointer(selector) {
        match pointer_tokens(selector) {
            Err(fault) => Some(fault),
            Ok(_) => None,
        }
    } else {
        None
    }
}

/// A token with its escapes resolved.
pub fn decode_json_pointer_token(token: &str) -> (text: Result<String, PointerFault>)
    ensures
        match text {
            Ok(text) => decoded(token@, 0, Seq::empty()) == Ok::<Seq<char>, PointerFault>(text@),
            Err(fault) => decoded(token@, 0, Seq::empty()) == Err::<Seq<char>, PointerFault>(
                fault,
            ),
        },
{
    let chars = chars_of(token);
    let mut text = String::new();
    let mut i: usize = 0;
    while i < chars.len()
        invariant
            chars@ == token@,
            i <= chars.len(),
            decoded(token@, i as int, text@) == decoded(token@, 0, Seq::empty()),
        decreases chars.len() - i,
    {
        let c = chars[i];
        if c != '~' {
            text.push(c);
            i += 1;
        } else if i + 1 >= chars.len() {
            return Err(PointerFault::OpenEscape);
        } else if chars[i + 1] == '0' {
            text.push('~');
            i += 2;
        } else if chars[i + 1] == '1' {
            text.push('/');
            i += 2;
        } else {
            return Err(PointerFault::BadEscape(chars[i + 1]));
        }
    }
    Ok(text)
}

/// A key as a token.
pub fn encode_json_pointer_token(key: &str) -> (token: String)
    ensures
        token@ == encoded(key@),
{
    let chars = chars_of(key);
    let mut token = String::new();
    let mut i: usize = 0;
    while i < chars.len()
        invariant
            chars@ == key@,
            i <= chars.len(),
            token@ == encoded(key@.take(i as int)),
        decreases chars.len() - i,
    {
        let c = chars[i];
        assert(key@.take(i + 1).drop_last() =~= key@.take(i as int));
        assert(key@.take(i + 1).last() == c);
        if c == '~' {
            token.push('~');
            token.push('0');
        } else if c == '/' {
            token.push('~');
            token.push('1');
        } else {
            token.push(c);
        }
        assert(token@ =~= encoded(key@.take(i + 1)));
        i += 1;
    }
    assert(key@.take(i as int) =~= key@);
    token
}

/// The tokens of a pointer.
pub fn parse_pointer(pointer: &str) -> (tokens: Result<Vec<String>, PointerFault>)
    ensures
        match tokens {
            Ok(tokens) => pointer_tokens(pointer@) == Ok::<Seq<Seq<char>>, PointerFault>(
                strings::texts(tokens@),
            ),
            Err(fault) => pointer_tokens(pointer@) == Err::<Seq<Seq<char>>, PointerFault>(fault),
        },
{
    let chars = chars_of(pointer);
    let mut tokens: Vec<String> = Vec::new();
    assert(strings::texts(tokens@) =~= Seq::empty());
    if chars.len() == 0 {
        return Ok(tokens);
    }
    if chars[0] != '/' {
        return Err(PointerFault::NoSlash);
    }
    let mut from: usize = 1;
    loop
        invariant
            chars@ == pointer@,
            1 <= from <= chars.len(),
            pointer_tokens(pointer@) == tokens_from(
                pointer@,
                from as int,
                strings::texts(tokens@),
            ),
        decreases chars.len() - from,
    {
        let end = strings::find_class_from(&chars, CharClass::Only('/'), from);
        let token = match decode_json_pointer_token(cut_string(&chars, from, end).as_str()) {
            Ok(token) => token,
            Err(fault) => {
                return Err(fault);
            },
        };
        let ghost before = tokens@;
        tokens.push(token);
        assert(strings::texts(tokens@) =~= strings::texts(before).push(token@));
        if end >= chars.len() {
            return Ok(tokens);
        }
        from = end + 1;
    }
}

/// What the token leads to from a value.
fn child_of<'a>(value: &'a JsonValue, token: &str) -> (next: Option<&'a JsonValue>)
    ensures
        match next {
            Some(next) => child(value@, token@) == Some(next@),
            None => child(value@, token@) is None,
        },
{
    match value {
        JsonValue::Object(_) => value.get(token),
        JsonValue::Array(items) => {
            proof {
                json::lemma_array_view(*items);
            }
            match parse_usize(token) {
                Some(index) => if index < items.len() {
                    assert(json::item_models(items@)[index as int] == items@[index as int]@);
                    Some(&items[index])
                } else {
                    None
                },
                None => None,
            }
        },
        _ => None,
    }
}

/// The result of a lookup, as its model.
pub open spec fn lookup_model(found: Result<Option<&JsonValue>, PointerFault>) -> Result<
    Option<Json>,
    PointerFault,
> {
    match found {
        Ok(Some(value)) => Ok(Some(value@)),
        Ok(None) => Ok(None),
        Err(fault) => Err(fault),
    }
}

/// The value that a pointer addresses. The pointer's syntax is held to whatever
/// the document is.
pub fn json_pointer_lookup<'a>(value: &'a JsonValue, pointer: &str) -> (found: Result<
    Option<&'a JsonValue>,
    PointerFault,
>)
    ensures
        lookup_model(found) == looked_up(value@, pointer@),
{
    let tokens = match parse_pointer(pointer) {
        Ok(tokens) => tokens,
        Err(fault) => {
            return Err(fault);
        },
    };
    Ok(descend_from(value, &tokens))
}

/// What the tokens lead to from a value.
pub fn descend_from<'a>(value: &'a JsonValue, tokens: &[String]) -> (found: Option<&'a JsonValue>)
    ensures
        match found {
            Some(found) => descend(value@, strings::texts(tokens@), 0) == Some(found@),
            None => descend(value@, strings::texts(tokens@), 0) is None,
        },
{
    let ghost texts = strings::texts(tokens@);
    let mut current: &'a JsonValue = value;
    let mut i: usize = 0;
    while i < tokens.len()
        invariant
            i <= tokens.len(),
            texts == strings::texts(tokens@),
            descend(current@, texts, i as int) == descend(value@, texts, 0),
        decreases tokens.len() - i,
    {
        assert(texts[i as int] == tokens@[i as int]@);
        match child_of(current, tokens[i].as_str()) {
            Some(next) => {
                current = next;
            },
            None => {
                return None;
            },
        }
        i += 1;
    }
    Some(current)
}

/// The value that a selector, a bare key or a pointer, picks from a row.
pub fn json_select_field<'a>(row: &'a JsonValue, selector: &str) -> (found: Result<
    Option<&'a JsonValue>,
    PointerFault,
>)
    ensures
        lookup_model(found) == selected(row@, selector@),
{
    let chars = chars_of(selector);
    if chars.len() == 0 || chars[0] == '/' {
        json_pointer_lookup(row, selector)
    } else {
        Ok(row.get(selector))
    }
}

/// Holds a selector to the syntax of pointers, if it is one.
pub fn validate_selector(selector: &str) -> (verdict: Result<(), PointerFault>)
    ensures
        match verdict {
            Ok(_) => selector_fault(selector@) is None,
            Err(fault) => selector_fault(selector@) == Some(fault),
        },
{
    let chars = chars_of(selector);
    if chars.len() == 0 || chars[0] == '/' {
        match parse_pointer(selector) {
            Ok(_) => Ok(()),
            Err(fault) => Err(fault),
        }
    } else {
        Ok(())
    }
}

/// The pointer of a member or item below another.
pub open spec fn below(pointer: Seq<char>, token: Seq<char>) -> Seq<char> {
    pointer.push('/') + encoded(token)
}

/// The pointer of the member with the key.
pub fn member_pointer(pointer: &str, key: &str) -> (below_it: String)
    ensures
        below_it@ == below(pointer@, key@),
{
    let mut text = pointer.to_owned();
    text.push('/');
    text.append(encode_json_pointer_token(key).as_str());
    text
}

/// The pointer of the item with the index.
pub fn item_pointer(pointer: &str, index: usize) -> (below_it: String)
    ensures
        below_it@ == below(pointer@, numbers::decimal(index as nat)),
{
    let token = count_text(index);
    member_pointer(pointer, token.as_str())
}

proof fn lemma_decoded_appends(a: Seq<char>, b: Seq<char>, i: int, read: Seq<char>, text: Seq<char>)
    requires
        0 <= i <= a.len(),
        decoded(a, i, read) == Ok::<Seq<char>, PointerFault>(text),
    ensures
        decoded(a + b, i, read) == decoded(a + b, a.len() as int, text),
    decreases a.len() - i,
{
    let c = a + b;
    if i < a.len() {
        assert(c[i] == a[i]);
        if a[i] != '~' {
            lemma_decoded_appends(a, b, i + 1, read.push(a[i]), text);
        } else {
            assert(c[i + 1] == a[i + 1]);
            if a[i + 1] == '0' {
                lemma_decoded_appends(a, b, i + 2, read.push('~'), text);
            } else {
                lemma_decoded_appends(a, b, i + 2, read.push('/'), text);
            }
        }
    }
}

/// Decoding a key's token gives the key back, and the token holds no slash.
pub proof fn token_reads_back(key: Seq<char>)
    ensures
        decoded(encoded(key), 0, Seq::empty()) == Ok::<Seq<char>, PointerFault>(key),
        forall|i: int| 0 <= i < encoded(key).len() ==> #[trigger] encoded(key)[i] != '/',
    decreases key.len(),
{
    if key.len() == 0 {
        assert(key =~= Seq::empty());
    } else {
        let head = key.drop_last();
        token_reads_back(head);
        let a = encoded(head);
        let b = if key.last() == '~' {
            seq!['~', '0']
        } else if key.last() == '/' {
            seq!['~', '1']
        } else {
            seq![key.last()]
        };
        lemma_decoded_appends(a, b, 0, Seq::empty(), head);
        let c = a + b;
        assert(encoded(key) == c);
        let n = a.len() as int;
        assert(c[n] == b[0]);
        if b.len() == 2 {
            assert(c[n + 1] == b[1]);
        }
        assert(head.push(key.last()) =~= key);
        assert(decoded(c, c.len() as int, key) == Ok::<Seq<char>, PointerFault>(key));
        assert forall|i: int| 0 <= i < c.len() implies #[trigger] c[i] != '/' by {
            if i < a.len() {
                assert(c[i] == a[i]);
            } else {
                assert(c[i] == b[i - a.len()]);
            }
        }
    }
}

proof fn lemma_find_slash_appends(a: Seq<char>, b: Seq<char>, i: int)
    requires
        0 <= i <= a.len(),
    ensures
        strings::find_class(a, CharClass::Only('/'), i) < a.len() ==> strings::find_class(
            a + b,
            CharClass::Only('/'),
            i,
        ) == strings::find_class(a, CharClass::Only('/'), i),
        strings::find_class(a, CharClass::Only('/'), i) == a.len() ==> strings::find_class(
            a + b,
            CharClass::Only('/'),
            i,
        ) == strings::find_class(a + b, CharClass::Only('/'), a.len() as int),
    decreases a.len() - i,
{
    strings::lemma_find_class_bounds(a, CharClass::Only('/'), i);
    if i < a.len() {
        assert((a + b)[i] == a[i]);
        if a[i] != '/' {
            lemma_find_slash_appends(a, b, i + 1);
        }
    }
}

proof fn lemma_no_slash(text: Seq<char>, i: int)
    requires
        0 <= i <= text.len(),
        forall|k: int| i <= k < text.len() ==> #[trigger] text[k] != '/',
    ensures
        strings::find_class(text, CharClass::Only('/'), i) == text.len(),
    decreases text.len() - i,
{
    if i < text.len() {
        lemma_no_slash(text, i + 1);
    }
}

proof fn lemma_tokens_append(
    pointer: Seq<char>,
    key: Seq<char>,
    from: int,
    read: Seq<Seq<char>>,
    tokens: Seq<Seq<char>>,
)
    requires
        0 <= from <= pointer.len(),
        tokens_from(pointer, from, read) == Ok::<Seq<Seq<char>>, PointerFault>(tokens),
    ensures
        tokens_from(below(pointer, key), from, read) == Ok::<Seq<Seq<char>>, PointerFault>(
            tokens.push(key),
        ),
    decreases pointer.len() - from,
{
    let longer = below(pointer, key);
    let tail = seq!['/'] + encoded(key);
    assert(longer =~= pointer + tail);
    lemma_find_slash_appends(pointer, tail, from);
    strings::lemma_find_class_bounds(pointer, CharClass::Only('/'), from);
    let end = strings::find_class(pointer, CharClass::Only('/'), from);
    let n = pointer.len() as int;
    assert(longer[n] == '/');
    assert(strings::find_class(longer, CharClass::Only('/'), n) == n);
    assert(longer.subrange(from, end) =~= pointer.subrange(from, end));
    let token = decoded(pointer.subrange(from, end), 0, Seq::empty())->Ok_0;
    if end < pointer.len() {
        lemma_tokens_append(pointer, key, end + 1, read.push(token), tokens);
    } else {
        token_reads_back(key);
        assert forall|k: int| n + 1 <= k < longer.len() implies #[trigger] longer[k] != '/' by {
            assert(longer[k] == encoded(key)[k - n - 1]);
        }
        lemma_no_slash(longer, n + 1);
        assert(longer.subrange(n + 1, longer.len() as int) =~= encoded(key));
        assert(tokens_from(longer, n + 1, tokens) == Ok::<Seq<Seq<char>>, PointerFault>(
            tokens.push(key),
        ));
    }
}

/// The tokens of a pointer below another are those of the other and the key.
pub proof fn lemma_tokens_below(pointer: Seq<char>, key: Seq<char>)
    requires
        pointer_tokens(pointer) is Ok,
    ensures
        pointer_tokens(below(pointer, key)) == Ok::<Seq<Seq<char>>, PointerFault>(
            pointer_tokens(pointer)->Ok_0.push(key),
        ),
{
    let longer = below(pointer, key);
    if pointer.len() == 0 {
        token_reads_back(key);
        assert(longer =~= seq!['/'] + encoded(key));
        assert forall|k: int| 1 <= k < longer.len() implies #[trigger] longer[k] != '/' by {
            assert(longer[k] == encoded(key)[k - 1]);
        }
        lemma_no_slash(longer, 1);
        assert(longer.subrange(1, longer.len() as int) =~= encoded(key));
    } else {
        assert(longer[0] == pointer[0]);
        lemma_tokens_append(pointer, key, 1, Seq::empty(), pointer_tokens(pointer)->Ok_0);
    }
}

proof fn lemma_descend_push(value: Json, tokens: Seq<Seq<char>>, token: Seq<char>, i: int, at: Json)
    requires
        0 <= i <= tokens.len(),
        descend(value, tokens, i) == Some(at),
    ensures
        descend(value, tokens.push(token), i) == child(at, token),
    decreases tokens.len() - i,
{
    let more = tokens.push(token);
    if i < tokens.len() {
        assert(more[i] == tokens[i]);
        lemma_descend_push(child(value, tokens[i])->0, tokens, token, i + 1, at);
    } else {
        assert(more[i] == token);
        match child(value, token) {
            Some(next) => {
                assert(descend(next, more, i + 1) == Some(next));
            },
            None => {},
        }
    }
}

/// Following a pointer and then a key is following the pointer of the member.
pub proof fn lookup_composes(value: Json, pointer: Seq<char>, key: Seq<char>, at: Json)
    requires
        looked_up(value, pointer) == Ok::<Option<Json>, PointerFault>(Some(at)),
    ensures
        looked_up(value, below(pointer, key)) == Ok::<Option<Json>, PointerFault>(child(at, key)),
{
    lemma_tokens_below(pointer, key);
    lemma_descend_push(value, pointer_tokens(pointer)->Ok_0, key, 0, at);
}

proof fn lemma_tokens_grow(pointer: Seq<char>, from: int, read: Seq<Seq<char>>)
    requires
        0 <= from <= pointer.len(),
    ensures
        tokens_from(pointer, from, read) matches Ok(tokens) ==> tokens.len() > read.len(),
    decreases pointer.len() - from,
{
    strings::lemma_find_class_bounds(pointer, CharClass::Only('/'), from);
    let end = strings::find_class(pointer, CharClass::Only('/'), from);
    if let Ok(token) = decoded(pointer.subrange(from, end), 0, Seq::empty()) {
        if end < pointer.len() {
            lemma_tokens_grow(pointer, end + 1, read.push(token));
        }
    }
}

/// A pointer that is not empty has a token.
pub proof fn lemma_pointer_has_tokens(pointer: Seq<char>)
    ensures
        pointer.len() > 0 ==> (pointer_tokens(pointer) matches Ok(tokens) ==> tokens.len() > 0),
{
    if pointer.len() > 0 && pointer[0] == '/' {
        lemma_tokens_grow(pointer, 1, Seq::empty());
    }
}

/// The token that spells an index leads to the item there, if there is one; the token
/// that is a key leads to the member; and nothing lies below any other value.
pub proof fn tokens_lead_to_children(
    items: Seq<Json>,
    members: Seq<(Seq<char>, Json)>,
    index: nat,
    token: Seq<char>,
)
    requires
        index <= usize::MAX,
    ensures
        index < items.len() ==> child(Json::Array(items), numbers::decimal(index)) == Some(
            items[index as int],
        ),
        index >= items.len() ==> child(Json::Array(items), numbers::decimal(index)) is None,
        child(Json::Object(members), token) is Some ==> members.contains(
            (token, child(Json::Object(members), token)->0),
        ),
        (exists|i: int| 0 <= i < members.len() && (#[trigger] members[i]).0 == token) ==> child(
            Json::Object(members),
            token,
        ) is Some,
        child(Json::Null, token) is None,
        forall|text: Seq<char>| (#[trigger] child(Json::Text(text), token)) is None,
{
    numbers::lemma_decimal_reads_back(index);
    json::members_are_found_by_key(members, token);
}

/// A bare key picks the member with that key, as the pointer to it does.
pub proof fn bare_keys_are_pointers(value: Json, key: Seq<char>)
    requires
        key.len() > 0,
        key[0] != '/',
        value is Object,
    ensures
        selected(value, key) == looked_up(value, below(Seq::empty(), key)),
{
    lemma_tokens_below(Seq::empty(), key);
    let tokens = pointer_tokens(below(Seq::empty(), key))->Ok_0;
    assert(tokens =~= seq![key]);
    assert(descend(value, tokens, 0) == match child(value, tokens[0]) {
        Some(next) => descend(next, tokens, 1),
        None => None,
    });
    let members = value->Object_0;
    assert(child(value, key) == json::member_of(members, key));
}

/// In a token only the tilde and the slash are escaped, the one as `~0` and the other as
/// `~1`; each character is escaped for itself.
pub proof fn tokens_escape_tilde_and_slash(a: Seq<char>, b: Seq<char>)
    ensures
        encoded(a + b) == encoded(a) + encoded(b),
        encoded(seq!['~']) == seq!['~', '0'],
        encoded(seq!['/']) == seq!['~', '1'],
        forall|c: char| c != '~' && c != '/' ==> #[trigger] encoded(seq![c]) == seq![c],
        !encoded(a).contains('/'),
    decreases b.len() + a.len(),
{
    if b.len() > 0 {
        assert((a + b).drop_last() =~= a + b.drop_last());
        tokens_escape_tilde_and_slash(a, b.drop_last());
        assert(encoded(a + b) =~= encoded(a) + encoded(b));
    } else {
        assert(a + b =~= a);
        assert(encoded(a) + encoded(b) =~= encoded(a));
    }
    assert(encoded(Seq::empty()) =~= Seq::empty());
    assert forall|c: char| #[trigger] encoded(seq![c]) == (if c == '~' {
        seq!['~', '0']
    } else if c == '/' {
        seq!['~', '1']
    } else {
        seq![c]
    }) by {
        assert(seq![c].drop_last() =~= Seq::empty());
        assert(seq![c].last() == c);
        assert(encoded(seq![c]) =~= (if c == '~' {
            seq!['~', '0']
        } else if c == '/' {
            seq!['~', '1']
        } else {
            seq![c]
        }));
    }
    if a.len() > 0 {
        tokens_escape_tilde_and_slash(a.drop_last(), Seq::empty());
        let front = encoded(a.drop_last());
        assert forall|i: int| 0 <= i < encoded(a).len() implies encoded(a)[i] != '/' by {
            if i < front.len() {
                assert(encoded(a)[i] == front[i]);
                assert(front.contains(front[i]));
            }
        }
    }
}

} // verus!
