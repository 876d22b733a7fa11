//! The guard as a hook: an agent's tool call, given as a JSON event, is held to
//! the deny-list before it runs.
use vstd::prelude::*;

use crate::destructive_guard;
use crate::destructive_guard::{
    evaluate_argv_with_config_scope, DenyDecision, DestructiveGuardConfig,
};
use crate::guard_laws;
use crate::json;
use crate::json::{read_document, Json, JsonValue};
use crate::json_pointer;
use crate::json_pointer::{json_pointer_lookup, parse_pointer, PointerFault};
use crate::program;
use crate::shell_laws;
use crate::shell_parse;
use crate::shell_parse::ShellDialect;
use crate::strings;
use crate::strings::{
    chars_of, cut_string, same_chars, same_text_ignoring_case, string_of, trim_end_of, trim_of,
    CharClass,
};

verus! {

/// Where the command stands in a hook event unless told otherwise.
pub const DEFAULT_COMMAND_FIELD: &'static str = "/tool_input/command";

/// The verdict on a hook event.
#[derive(Debug, PartialEq, Eq)]
pub enum HookVerdict {
    Allow,
    /// Denied, but let through by the override.
    AllowWithOverride { message: String },
    /// Let through because there is no command to judge, or none of this policy.
    AllowUnparsed { note: String },
    Deny { message: String },
}

/// Whether a verdict is the one for a decision on the command.
pub open spec fn follows(
    verdict: HookVerdict,
    denial: Option<Seq<char>>,
    override_active: bool,
) -> bool {
    match denial {
        None => verdict is Allow,
        Some(text) => if override_active {
            verdict matches HookVerdict::AllowWithOverride { message } && message@ == text
        } else {
            verdict matches HookVerdict::Deny { message } && message@ == text
        },
    }
}

/// The parts of a dotted path from `from` on, where a part starts.
pub open spec fn dotted_parts(path: Seq<char>, from: int) -> Seq<Seq<char>>
    decreases path.len() - from + 1,
{
    if from < 0 || from > path.len() {
        Seq::empty()
    } else {
        proof {
            strings::lemma_find_class_bounds(path, CharClass::Only('.'), from);
        }
        let end = strings::find_class(path, CharClass::Only('.'), from);
        seq![path.subrange(from, end)] + dotted_parts(path, end + 1)
    }
}

/// The value at a field of an event: the field is a JSON Pointer, or a dotted
/// path of keys.
pub open spec fn field_value(event: Json, field: Seq<char>) -> Option<Json> {
    if json_pointer::is_pointer(field) {
        match json_pointer::looked_up(event, field) {
            Ok(found) => found,
            Err(_) => None,
        }
    } else {
        json_pointer::descend(event, dotted_parts(field, 0), 0)
    }
}

/// A path with slashes for separators and none at its end.
pub open spec fn plain_path(path: Seq<char>) -> Seq<char> {
    strings::trim_end(
        path.map_values(
            |c: char|
                if c == '\\' {
                    '/'
                } else {
                    c
                },
        ),
        CharClass::Only('/'),
    )
}

pub open spec fn has_drive(path: Seq<char>) -> bool {
    path.len() > 1 && path[1] == ':'
}

/// Whether a path is a directory or lies below it. Paths with a drive are
/// compared without regard to case.
pub open spec fn is_inside(path: Seq<char>, root: Seq<char>) -> bool {
    let inner = plain_path(path);
    let outer = plain_path(root);
    &&& inner.len() >= outer.len()
    &&& inner.len() > outer.len() ==> inner[outer.len() as int] == '/'
    &&& if has_drive(outer) {
        strings::same_ignoring_case(inner.take(outer.len() as int), outer)
    } else {
        inner.take(outer.len() as int) == outer
    }
}

/// The working directory that an event names.
pub open spec fn event_cwd(event: Json) -> Option<Seq<char>> {
    match json_pointer::child(event, "cwd"@) {
        Some(Json::Text(cwd)) => Some(cwd),
        _ => None,
    }
}

/// Whether an event belongs to a directory outside the root.
pub open spec fn is_foreign(event: Json, root: Option<Seq<char>>) -> bool {
    root is Some && event_cwd(event) is Some && !is_inside(event_cwd(event)->0, root->0)
}

/// Whether the configured fragments apply to an event: a policy that is bound to
/// a root applies to events that are known to belong there.
pub open spec fn configured_applies(event: Json, root: Option<Seq<char>>) -> bool {
    root is None || event_cwd(event) is Some
}

pub open spec fn missing_note(field: Seq<char>) -> Seq<char> {
    "hook payload has no `"@ + field + "` field; allowing"@
}

pub open spec fn not_text_note(field: Seq<char>) -> Seq<char> {
    "hook payload field `"@ + field + "` is not a string; allowing"@
}

pub open spec fn foreign_note(cwd: Seq<char>, root: Seq<char>) -> Seq<char> {
    "hook cwd "@ + cwd + " is outside policy root "@ + root + "; allowing"@
}

/// Whether a verdict is the one on an event.
pub open spec fn judges(
    verdict: HookVerdict,
    event: Json,
    field: Seq<char>,
    config: DestructiveGuardConfig,
    override_active: bool,
    root: Option<Seq<char>>,
    dialect: ShellDialect,
) -> bool {
    match field_value(event, field) {
        None => verdict matches HookVerdict::AllowUnparsed { note } && note@ == missing_note(field),
        Some(Json::Text(command)) => if is_foreign(event, root) {
            verdict matches HookVerdict::AllowUnparsed { note } && note@ == foreign_note(
                event_cwd(event)->0,
                root->0,
            )
        } else {
            follows(
                verdict,
                destructive_guard::denied_argv(
                    shell_argv(command, dialect),
                    config.rules(configured_applies(event, root)),
                ),
                override_active,
            )
        },
        Some(_) => verdict matches HookVerdict::AllowUnparsed { note } && note@ == not_text_note(
            field,
        ),
    }
}

/// The argv that hands a command text to a shell.
pub open spec fn shell_argv(command: Seq<char>, dialect: ShellDialect) -> Seq<Seq<char>> {
    match dialect {
        ShellDialect::Posix => seq!["sh"@, "-c"@, command],
        ShellDialect::Powershell => seq!["powershell"@, "-Command"@, command],
        ShellDialect::Cmd => seq!["cmd"@, "/c"@, command],
    }
}

fn split_dotted(path: &str) -> (parts: Vec<String>)
    ensures
        strings::texts(parts@) == dotted_parts(path@, 0),
{
    let chars = chars_of(path);
    let mut parts: Vec<String> = Vec::new();
    let mut from: usize = 0;
    assert(strings::texts(parts@) + dotted_parts(path@, 0) =~= dotted_parts(path@, 0));
    loop
        invariant_except_break
            chars@ == path@,
            from <= chars.len(),
            strings::texts(parts@) + dotted_parts(path@, from as int) == dotted_parts(path@, 0),
        ensures
            strings::texts(parts@) == dotted_parts(path@, 0),
        decreases chars.len() + 1 - from,
    {
        let end = strings::find_class_from(&chars, CharClass::Only('.'), from);
        let ghost before = parts@;
        let ghost rest = dotted_parts(path@, end + 1);
        let part = cut_string(&chars, from, end);
        parts.push(part);
        assert(strings::texts(parts@) =~= strings::texts(before).push(part@));
        assert(strings::texts(parts@) + rest =~= strings::texts(before) + (seq![part@] + rest));
        if end >= chars.len() {
            assert(rest =~= Seq::empty());
            assert(strings::texts(parts@) + rest =~= strings::texts(parts@));
            break ;
        }
        from = end + 1;
    }
    parts
}

/// The value at a field of an event.
pub fn find_field<'a>(event: &'a JsonValue, field: &str) -> (value: Option<&'a JsonValue>)
    ensures
        match value {
            Some(value) => field_value(event@, field@) == Some(value@),
            None => field_value(event@, field@) is None,
        },
{
    let chars = chars_of(field);
    if chars.len() == 0 || chars[0] == '/' {
        match json_pointer_lookup(event, field) {
            Ok(found) => found,
            Err(_) => None,
        }
    } else {
        let parts = split_dotted(field);
        json_pointer::descend_from(event, &parts)
    }
}

fn plain_path_of(path: &str) -> (plain: Vec<char>)
    ensures
        plain@ == plain_path(path@),
{
    let chars = chars_of(path);
    let ghost wanted = path@.map_values(
        |c: char|
            if c == '\\' {
                '/'
            } else {
                c
            },
    );
    let mut slashed: Vec<char> = Vec::new();
    let mut i: usize = 0;
    while i < chars.len()
        invariant
            i <= chars.len(),
            chars@ == path@,
            wanted == path@.map_values(
                |c: char|
                    if c == '\\' {
                        '/'
                    } else {
                        c
                    },
            ),
            slashed@ == wanted.take(i as int),
        decreases chars.len() - i,
    {
        slashed.push(
            if chars[i] == '\\' {
                '/'
            } else {
                chars[i]
            },
        );
        assert(wanted.take(i + 1) =~= wanted.take(i as int).push(wanted[i as int]));
        i += 1;
    }
    assert(wanted.take(i as int) =~= wanted);
    trim_end_of(&slashed, CharClass::Only('/'))
}

/// Whether a path is a directory or lies below it.
pub fn path_is_inside(path: &str, root: &str) -> (held: bool)
    ensures
        held == is_inside(path@, root@),
{
    let inner = plain_path_of(path);
    let outer = plain_path_of(root);
    if inner.len() < outer.len() {
        return false;
    }
    if inner.len() > outer.len() && inner[outer.len()] != '/' {
        return false;
    }
    let head = strings::cut(&inner, 0, outer.len());
    if outer.len() > 1 && outer[1] == ':' {
        same_text_ignoring_case(string_of(&head).as_str(), string_of(&outer).as_str())
    } else {
        same_chars(&head, &outer)
    }
}

pub open spec fn root_text(root: Option<&str>) -> Option<Seq<char>> {
    match root {
        Some(root) => Some(root@),
        None => None,
    }
}

/// The verdict on a hook event. An event without a command text is let through,
/// as is one whose working directory lies outside the root that the policy is
/// bound to.
pub fn evaluate_hook_event(
    event: &JsonValue,
    field: &str,
    config: &DestructiveGuardConfig,
    override_active: bool,
    expected_root: Option<&str>,
    dialect: ShellDialect,
) -> (verdict: HookVerdict)
    ensures
        judges(
            verdict,
            event@,
            field@,
            *config,
            override_active,
            root_text(expected_root),
            dialect,
        ),
{
    let command = match find_field(event, field) {
        None => {
            return HookVerdict::AllowUnparsed {
                note: "hook payload has no `".to_owned().concat(field).concat(
                    "` field; allowing",
                ),
            };
        },
        Some(value) => match value.as_text() {
            None => {
                return HookVerdict::AllowUnparsed {
                    note: "hook payload field `".to_owned().concat(field).concat(
                        "` is not a string; allowing",
                    ),
                };
            },
            Some(command) => command,
        },
    };
    let cwd: Option<String> = match event {
        JsonValue::Object(_) => match event.get("cwd") {
            Some(value) => value.as_text(),
            None => None,
        },
        _ => None,
    };
    let mut configured = true;
    if let Some(root) = expected_root {
        match &cwd {
            Some(cwd) => {
                proof {
                    lemma_object_child(event@, "cwd"@);
                }
                if !path_is_inside(cwd.as_str(), root) {
                    return HookVerdict::AllowUnparsed {
                        note: "hook cwd ".to_owned().concat(cwd.as_str()).concat(
                            " is outside policy root ",
                        ).concat(root).concat("; allowing"),
                    };
                }
            },
            None => {
                proof {
                    lemma_cwd_needs_object(event@);
                }
                configured = false;
            },
        }
    }
    let argv = dialect.command_argv(command.as_str());
    assert(strings::texts(argv@) == shell_argv(command@, dialect));
    match evaluate_argv_with_config_scope(&argv, config, override_active, configured) {
        DenyDecision::Allow => HookVerdict::Allow,
        DenyDecision::AllowWithOverride { message } => HookVerdict::AllowWithOverride { message },
        DenyDecision::Deny { message } => HookVerdict::Deny { message },
    }
}

proof fn lemma_object_child(event: Json, key: Seq<char>)
    ensures
        event matches Json::Object(members) ==> json_pointer::child(event, key)
            == json::member_of(members, key),
{
}

/// Only an object, or an array at a number, has children, and `cwd` is no number.
proof fn lemma_cwd_needs_object(event: Json)
    ensures
        !(event is Object) ==> event_cwd(event) is None,
{
    reveal_strlit("cwd");
    assert("cwd"@[0] == 'c');
    assert(!strings::is_digit("cwd"@[0]));
}

/// The verdict on the text of a hook event. A text that is empty or no JSON is let
/// through with a note, so that a change of the event's shape cannot stop every
/// command.
pub fn evaluate_hook_payload_for_root(
    raw: &str,
    field: &str,
    config: &DestructiveGuardConfig,
    override_active: bool,
    expected_root: Option<&str>,
    dialect: ShellDialect,
) -> (verdict: HookVerdict)
    ensures
        if strings::trim(raw@).len() == 0 {
            verdict matches HookVerdict::AllowUnparsed { note } && note@
                == "empty hook payload; allowing"@
        } else {
            match json::json_read(vstd::utf8::encode_utf8(raw@)) {
                Ok(event) => judges(
                    verdict,
                    event,
                    field@,
                    *config,
                    override_active,
                    root_text(expected_root),
                    dialect,
                ),
                Err(detail) => verdict matches HookVerdict::AllowUnparsed { note } && note@
                    == "hook payload is not valid JSON ("@ + detail + "); allowing"@,
            }
        },
{
    if trim_of(raw).as_str().is_empty() {
        return HookVerdict::AllowUnparsed { note: "empty hook payload; allowing".to_owned() };
    }
    match read_document(raw.as_bytes()) {
        Ok(event) => evaluate_hook_event(
            &event,
            field,
            config,
            override_active,
            expected_root,
            dialect,
        ),
        Err(detail) => HookVerdict::AllowUnparsed {
            note: "hook payload is not valid JSON (".to_owned().concat(detail.as_str()).concat(
                "); allowing",
            ),
        },
    }
}

/// The verdict on the text of a hook event, whatever directory it belongs to.
pub fn evaluate_hook_payload_with_shell(
    raw: &str,
    field: &str,
    config: &DestructiveGuardConfig,
    override_active: bool,
    dialect: ShellDialect,
) -> (verdict: HookVerdict)
    ensures
        if strings::trim(raw@).len() == 0 {
            verdict matches HookVerdict::AllowUnparsed { note } && note@
                == "empty hook payload; allowing"@
        } else {
            match json::json_read(vstd::utf8::encode_utf8(raw@)) {
                Ok(event) => judges(
                    verdict,
                    event,
                    field@,
                    *config,
                    override_active,
                    None,
                    dialect,
                ),
                Err(detail) => verdict matches HookVerdict::AllowUnparsed { note } && note@
                    == "hook payload is not valid JSON ("@ + detail + "); allowing"@,
            }
        },
{
    evaluate_hook_payload_for_root(raw, field, config, override_active, None, dialect)
}

/// The verdict on the text of a hook event whose command is for a POSIX shell.
pub fn evaluate_hook_payload(
    raw: &str,
    field: &str,
    config: &DestructiveGuardConfig,
    override_active: bool,
) -> (verdict: HookVerdict)
    ensures
        if strings::trim(raw@).len() == 0 {
            verdict matches HookVerdict::AllowUnparsed { note } && note@
                == "empty hook payload; allowing"@
        } else {
            match json::json_read(vstd::utf8::encode_utf8(raw@)) {
                Ok(event) => judges(
                    verdict,
                    event,
                    field@,
                    *config,
                    override_active,
                    None,
                    ShellDialect::Posix,
                ),
                Err(detail) => verdict matches HookVerdict::AllowUnparsed { note } && note@
                    == "hook payload is not valid JSON ("@ + detail + "); allowing"@,
            }
        },
{
    evaluate_hook_payload_with_shell(raw, field, config, override_active, ShellDialect::Posix)
}

/// Holds the command field of a hook to the syntax of JSON Pointers. The root of
/// an event is no command.
pub fn parse_command_field(field: &str) -> (verdict: Result<(), PointerFault>)
    ensures
        match verdict {
            Ok(_) => field@.len() > 0 && json_pointer::pointer_tokens(field@) is Ok,
            Err(fault) => if field@.len() == 0 {
                fault == PointerFault::NoSlash
            } else {
                json_pointer::pointer_tokens(field@) == Err::<Seq<Seq<char>>, PointerFault>(fault)
            },
        },
{
    if field.is_empty() {
        return Err(PointerFault::NoSlash);
    }
    match parse_pointer(field) {
        Ok(_) => Ok(()),
        Err(fault) => Err(fault),
    }
}

/// The override turns a denial into a warning with the same message and changes
/// nothing else.
pub proof fn override_only_downgrades(
    plain: HookVerdict,
    overridden: HookVerdict,
    event: Json,
    field: Seq<char>,
    config: DestructiveGuardConfig,
    root: Option<Seq<char>>,
    dialect: ShellDialect,
)
    requires
        judges(plain, event, field, config, false, root, dialect),
        judges(overridden, event, field, config, true, root, dialect),
    ensures
        plain is Allow <==> overridden is Allow,
        plain is AllowUnparsed <==> overridden is AllowUnparsed,
        plain matches HookVerdict::Deny { message } ==> (
        overridden matches HookVerdict::AllowWithOverride { message: warning } && warning@
            == message@),
        !(plain is AllowWithOverride),
        !(overridden is Deny),
{
}

/// What lies below a root is inside it and so is the root itself; a directory whose name
/// only begins like that of the root is not.
pub proof fn inside_is_behind_the_slash(root: Seq<char>, rest: Seq<char>, c: char)
    requires
        root.len() > 0,
        !root.contains('\\'),
        root.last() != '/',
        rest.len() > 0,
        rest.last() != '/' && rest.last() != '\\',
        c != '/' && c != '\\',
    ensures
        is_inside(root, root),
        is_inside(root + seq!['/'] + rest, root),
        is_inside(root + seq!['\\'] + rest, root),
        is_inside(root + seq!['/'], root),
        !is_inside(root + seq![c], root),
        !is_inside(root + seq![c] + rest, root),
{
    lemma_plain_stays(root);
    let below = root + seq!['/'] + rest;
    let back = root + seq!['\\'] + rest;
    let ended = root + seq!['/'];
    let longer = root + seq![c];
    let beside = root + seq![c] + rest;
    assert forall|i: int| 0 <= i < root.len() implies #[trigger] root[i] != '\\' by {
        assert(root.contains(root[i]));
    }
    lemma_plain_end(below);
    lemma_plain_end(back);
    lemma_plain_end(longer);
    lemma_plain_end(beside);
    assert(plain_path(below).take(root.len() as int) =~= root);
    assert(plain_path(back).take(root.len() as int) =~= root);
    let shown = slashed(ended);
    assert(shown =~= ended);
    assert(strings::rskip_class(shown, CharClass::Only('/'), root.len() as int) == root.len()) by {
        assert(shown[root.len() - 1] == root.last());
    }
    assert(plain_path(ended) =~= root);
    assert(plain_path(longer)[root.len() as int] == c);
    assert(plain_path(beside)[root.len() as int] == c);
    assert(root.take(root.len() as int) =~= root);
}

spec fn slashed(path: Seq<char>) -> Seq<char> {
    path.map_values(
        |c: char|
            if c == '\\' {
                '/'
            } else {
                c
            },
    )
}

/// A path that does not end in a separator loses nothing.
proof fn lemma_plain_end(path: Seq<char>)
    requires
        path.len() > 0,
        path.last() != '/',
        path.last() != '\\',
    ensures
        plain_path(path) == slashed(path),
{
    let shown = slashed(path);
    assert(shown.last() == path.last());
    assert(strings::trim_end(shown, CharClass::Only('/')) =~= shown);
}

proof fn lemma_plain_stays(path: Seq<char>)
    requires
        path.len() > 0,
        path.last() != '/',
        !path.contains('\\'),
    ensures
        plain_path(path) == path,
{
    assert(path.contains(path.last()));
    lemma_plain_end(path);
    assert forall|i: int| 0 <= i < path.len() implies slashed(path)[i] == path[i] by {
        assert(path.contains(path[i]));
    }
    assert(slashed(path) =~= path);
}

/// A field without dots and slashes names a member of the event; dots lead from a member
/// to those below it, as a pointer does.
pub proof fn dotted_fields_lead_downwards(
    event: Json,
    members: Seq<(Seq<char>, Json)>,
    inner: Seq<(Seq<char>, Json)>,
    a: Seq<char>,
    b: Seq<char>,
)
    requires
        event == Json::Object(members),
        a.len() > 0,
        a[0] != '/',
        !a.contains('.'),
        !b.contains('.'),
    ensures
        field_value(event, a) == json::member_of(members, a),
        json::member_of(members, a) == Some(Json::Object(inner)) ==> field_value(
            event,
            a + seq!['.'] + b,
        ) == json::member_of(inner, b),
        json::member_of(members, a) is None ==> field_value(event, a + seq!['.'] + b) is None,
{
    let path = a + seq!['.'] + b;
    lemma_one_dotted(a);
    assert(path[0] == a[0]);
    strings::lemma_find_class_bounds(path, CharClass::Only('.'), 0);
    let at = strings::find_class(path, CharClass::Only('.'), 0);
    assert(path[a.len() as int] == '.');
    if at < a.len() {
        assert(path[at] == a[at]);
        assert(a.contains(a[at]));
    }
    assert(at == a.len());
    assert(path.subrange(0, at) =~= a);
    strings::lemma_find_class_bounds(path, CharClass::Only('.'), at + 1);
    let end = strings::find_class(path, CharClass::Only('.'), at + 1);
    if end < path.len() {
        assert(path[end] == b[end - at - 1]);
        assert(b.contains(b[end - at - 1]));
    }
    assert(path.subrange(at + 1, end) =~= b);
    assert(dotted_parts(path, end + 1) =~= Seq::empty());
    assert(dotted_parts(path, at + 1) =~= seq![b]);
    assert(dotted_parts(path, 0) =~= seq![a, b]);
    let tokens = seq![a, b];
    assert(tokens[0] == a && tokens[1] == b);
    let alone = seq![a];
    assert(alone[0] == a);
    let first = json_pointer::child(event, a);
    assert(json_pointer::descend(event, alone, 0) == match first {
        Some(next) => json_pointer::descend(next, alone, 1),
        None => None,
    });
    if json::member_of(members, a) == Some(Json::Object(inner)) {
        let next = Json::Object(inner);
        assert(json_pointer::descend(event, tokens, 0) == json_pointer::descend(next, tokens, 1));
        assert(json_pointer::descend(next, tokens, 1) == match json_pointer::child(next, b) {
            Some(last) => json_pointer::descend(last, tokens, 2),
            None => None,
        });
    }
}

proof fn lemma_one_dotted(a: Seq<char>)
    requires
        !a.contains('.'),
    ensures
        dotted_parts(a, 0) == seq![a],
{
    strings::lemma_find_class_bounds(a, CharClass::Only('.'), 0);
    let end = strings::find_class(a, CharClass::Only('.'), 0);
    if end < a.len() {
        assert(a.contains(a[end]));
    }
    assert(a.subrange(0, end) =~= a);
    assert(dotted_parts(a, end + 1) =~= Seq::empty());
    assert(dotted_parts(a, 0) =~= seq![a]);
}

/// A command that is handed in by an event inside the root is denied if and only if the
/// command that its words make up is, unless the override lets it through; and one from
/// elsewhere, or without a text, is never denied.
pub proof fn hook_judges_the_command_itself(
    verdict: HookVerdict,
    event: Json,
    field: Seq<char>,
    config: DestructiveGuardConfig,
    root: Option<Seq<char>>,
    command: Seq<char>,
)
    requires
        judges(verdict, event, field, config, false, root, ShellDialect::Posix),
    ensures
        !(field_value(event, field) matches Some(Json::Text(_))) ==> !(verdict is Deny),
        (root matches Some(root) ==> (event_cwd(event) matches Some(cwd) ==> !is_inside(cwd, root)))
            && root is Some && event_cwd(event) is Some ==> !(verdict is Deny),
        field_value(event, field) == Some(Json::Text(command)) && shell_laws::is_plain(command)
            && shell_laws::words(command).len() > 0 && !shell_laws::words(command).contains(
            shell_parse::redirection(),
        ) && (root is None || (event_cwd(event) is Some && is_inside(
            event_cwd(event)->0,
            root->0,
        ))) ==> ((verdict is Deny) == (destructive_guard::denied_command(
            shell_laws::words(command),
            config.rules(true),
            1,
            ShellDialect::Posix,
        ) is Some)),
{
    if field_value(event, field) == Some(Json::Text(command)) && shell_laws::is_plain(command)
        && shell_laws::words(command).len() > 0 && !shell_laws::words(command).contains(
        shell_parse::redirection(),
    ) {
        let rules = config.rules(configured_applies(event, root));
        let argv = shell_argv(command, ShellDialect::Posix);
        reveal_strlit("sh");
        reveal_strlit("-c");
        assert("sh"@ =~= seq!['s', 'h']);
        assert("-c"@ =~= seq!['-', 'c']);
        assert(strings::lower_text("sh"@) =~= "sh"@);
        let none = Seq::<char>::empty();
        program::programs_are_known_by_name(none, "sh"@, none);
        assert(none + "sh"@ =~= "sh"@);
        assert("-c"@.skip(1)[0] == 'c');
        assert(argv[0] == "sh"@ && argv[1] == "-c"@ && argv[2] == command);
        guard_laws::scripts_are_judged_by_what_they_run(argv, rules, 0, ShellDialect::Posix);
        guard_laws::plain_scripts_are_judged_by_their_words(
            command,
            rules,
            1,
            ShellDialect::Posix,
        );
    }
}

} // verus!
