//! The configuration: which file it is read from, what may stand in it, and what a
//! scan and the guard have of it.
use vstd::prelude::*;

use crate::destructive_guard::DestructiveGuardConfig;
use crate::globs;
use crate::globs::{build_globset, GlobFault, PatternSet};
use crate::paths;
use crate::paths::{components_of, Host};
use crate::strings;
use crate::strings::{
    chars_of, contains, cut_string, debug_text, find_class_from, join, push_text, same_text,
    same_text_ignoring_case, split_first, split_first_text, trim_of, CharClass,
};

verus! {

/// The name of the configuration file.
pub const CONFIG_NAME: &'static str = ".contextmink.toml";

/// The profile of a configuration that nobody has edited.
pub const PLACEHOLDER_PROFILE: &'static str = "replace-with-workspace-name";

pub const ACCEPTED_CONFIG_KEYS: &'static str =
    "profile, exclude_globs, destructive_guard_recursive_delete_fragments, destructive_guard_delete_fragments";

/// What a configuration file says.
#[derive(Debug)]
pub struct ContextminkConfig {
    pub profile: Option<String>,
    pub exclude_globs: Option<Vec<String>>,
    pub destructive_guard_recursive_delete_fragments: Option<Vec<String>>,
    pub destructive_guard_delete_fragments: Option<Vec<String>>,
}

/// What a scan and the guard read of the configuration.
pub struct ContextConfig {
    pub profile: Option<String>,
    /// Exclusions that apply below every root of a scan.
    pub builtin_excludes: PatternSet,
    /// The repository's own exclusions, which apply below `policy_root`.
    pub repository_excludes: PatternSet,
    /// The canonical directory of the configuration file.
    pub policy_root: Option<String>,
    pub destructive_guard: DestructiveGuardConfig,
}

/// The globs of trees that are built or fetched.
pub open spec fn builtin_globs() -> Seq<Seq<char>> {
    seq![
        ".git"@,
        "**/.git"@,
        ".git/**"@,
        "**/.git/**"@,
        "target/**"@,
        "**/target/**"@,
        "node_modules/**"@,
        "**/node_modules/**"@,
        ".venv/**"@,
        "**/.venv/**"@,
    ]
}

/// The globs of trees that are built or fetched.
pub fn builtin_excludes() -> (patterns: Vec<String>)
    ensures
        strings::texts(patterns@) == builtin_globs(),
{
    let mut patterns: Vec<String> = Vec::new();
    assert(strings::texts(patterns@) =~= Seq::empty());
    push_text(&mut patterns, ".git".to_owned());
    push_text(&mut patterns, "**/.git".to_owned());
    push_text(&mut patterns, ".git/**".to_owned());
    push_text(&mut patterns, "**/.git/**".to_owned());
    push_text(&mut patterns, "target/**".to_owned());
    push_text(&mut patterns, "**/target/**".to_owned());
    push_text(&mut patterns, "node_modules/**".to_owned());
    push_text(&mut patterns, "**/node_modules/**".to_owned());
    push_text(&mut patterns, ".venv/**".to_owned());
    push_text(&mut patterns, "**/.venv/**".to_owned());
    assert(strings::texts(patterns@) =~= builtin_globs());
    patterns
}

/// The file that the configuration is read from.
pub open spec fn chosen_config(
    no_config: bool,
    named: Option<Seq<char>>,
    found: Option<Seq<char>>,
) -> Option<Seq<char>> {
    if no_config {
        None
    } else if named is Some {
        named
    } else {
        found
    }
}

/// A file that is named is read instead of any that is found, and where none is wanted
/// neither is read.
pub proof fn named_configuration_wins(
    named: Seq<char>,
    found: Option<Seq<char>>,
    other: Option<Seq<char>>,
)
    ensures
        chosen_config(false, Some(named), found) == Some(named),
        chosen_config(false, None, found) == found,
        chosen_config(true, other, found) is None,
{
}

/// The file that the configuration is read from: none, the one that is named, or
/// the one that was found.
pub fn choose_config(no_config: bool, named: Option<&str>, found: Option<&str>) -> (path: Option<
    String,
>)
    ensures
        strings::text_option(path) == chosen_config(
            no_config,
            strings::opt_text(named),
            strings::opt_text(found),
        ),
{
    if no_config {
        return None;
    }
    match named {
        Some(path) => Some(path.to_owned()),
        None => match found {
            Some(path) => Some(path.to_owned()),
            None => None,
        },
    }
}

/// The directory that a file lies in.
pub open spec fn directory_of(path: Seq<char>, host: Host) -> Seq<char> {
    let list = paths::components(path, host);
    if list.len() <= 1 {
        "."@
    } else {
        let rest = list.drop_last();
        if rest[0] == "/"@ {
            "/"@ + strings::join_texts(rest.skip(1), "/"@)
        } else {
            strings::join_texts(rest, "/"@)
        }
    }
}

/// The directory of a configuration file, below which its exclusions apply.
pub fn selected_config_policy_root(path: &str, host: Host) -> (directory: String)
    ensures
        directory@ == directory_of(path@, host),
{
    let list = components_of(path, host);
    let ghost texts = strings::texts(list@);
    assert(texts.len() == list@.len());
    if list.len() <= 1 {
        return ".".to_owned();
    }
    let ghost rest = texts.drop_last();
    assert(texts[0] == list@[0]@);
    let rooted = same_text(list[0].as_str(), "/");
    let start: usize = if rooted {
        1
    } else {
        0
    };
    let mut parts: Vec<String> = Vec::new();
    let mut i: usize = start;
    assert(strings::texts(parts@) =~= rest.subrange(start as int, start as int));
    while i < list.len() - 1
        invariant
            start <= i <= list.len() - 1,
            texts == strings::texts(list@),
            rest == texts.drop_last(),
            strings::texts(parts@) == rest.subrange(start as int, i as int),
        decreases list.len() - i,
    {
        assert(texts[i as int] == list@[i as int]@);
        push_text(&mut parts, list[i].clone());
        assert(rest.subrange(start as int, i + 1) =~= rest.subrange(start as int, i as int).push(
            texts[i as int],
        ));
        i += 1;
    }
    assert(rest.subrange(0, rest.len() as int) =~= rest);
    assert(rest.subrange(1, rest.len() as int) =~= rest.skip(1));
    let joined = join(&parts, "/");
    if rooted {
        "/".to_owned().concat(joined.as_str())
    } else {
        joined
    }
}

/// Why a profile is refused.
#[derive(Debug, Clone, Copy, PartialEq, Eq, Structural)]
pub enum ProfileFault {
    Empty,
    Placeholder,
}

impl ProfileFault {
    pub open spec fn text(self) -> Seq<char> {
        match self {
            ProfileFault::Empty => "contextmink profile must not be empty"@,
            ProfileFault::Placeholder => "contextmink profile is still the template placeholder "@
                + strings::debug_quoted(PLACEHOLDER_PROFILE@)
                + "; replace it with the workspace name"@,
        }
    }

    pub fn message(self) -> (message: String)
        ensures
            message@ == self.text(),
    {
        match self {
            ProfileFault::Empty => "contextmink profile must not be empty".to_owned(),
            ProfileFault::Placeholder =>
                "contextmink profile is still the template placeholder ".to_owned().concat(
                debug_text(PLACEHOLDER_PROFILE).as_str(),
            ).concat("; replace it with the workspace name"),
        }
    }
}

pub open spec fn profile_fault(profile: Seq<char>) -> Option<ProfileFault> {
    let bare = strings::trim(profile);
    if bare.len() == 0 {
        Some(ProfileFault::Empty)
    } else if strings::same_ignoring_case(bare, PLACEHOLDER_PROFILE@) {
        Some(ProfileFault::Placeholder)
    } else {
        None
    }
}

/// A profile is a name of somebody's own.
pub fn validate_profile(profile: &str) -> (verdict: Result<(), ProfileFault>)
    ensures
        match verdict {
            Ok(_) => profile_fault(profile@) is None,
            Err(fault) => profile_fault(profile@) == Some(fault),
        },
{
    let bare = trim_of(profile);
    if bare.as_str().is_empty() {
        return Err(ProfileFault::Empty);
    }
    if same_text_ignoring_case(bare.as_str(), PLACEHOLDER_PROFILE) {
        return Err(ProfileFault::Placeholder);
    }
    Ok(())
}

/// How many bytes a character takes in UTF-8.
pub open spec fn utf8_width(c: char) -> nat {
    if c as u32 <= 0x7f {
        1
    } else if c as u32 <= 0x7ff {
        2
    } else if c as u32 <= 0xffff {
        3
    } else {
        4
    }
}

/// The place of the character that starts at a byte offset, counted from `at` on,
/// which lies `offset` bytes before it.
pub open spec fn place_of_byte(text: Seq<char>, at: int, offset: int) -> Option<int>
    decreases text.len() - at,
{
    if offset == 0 {
        Some(at)
    } else if offset < 0 || at < 0 || at >= text.len() {
        None
    } else {
        place_of_byte(text, at + 1, offset - utf8_width(text[at]))
    }
}

pub open spec fn is_key_char(c: char) -> bool {
    strings::is_alphanumeric(c) || c == '_' || c == '-'
}

pub open spec fn is_key(text: Seq<char>) -> bool {
    text.len() > 0 && forall|i: int| 0 <= i < text.len() ==> is_key_char(#[trigger] text[i])
}

/// The key that the line at a byte offset sets.
pub open spec fn key_at_offset(text: Seq<char>, offset: int) -> Option<Seq<char>> {
    match place_of_byte(text, 0, offset) {
        None => None,
        Some(at) => {
            let start = strings::rfind_class(text, CharClass::Only('\n'), at);
            let end = strings::find_class(text, CharClass::Only('\n'), at);
            match strings::split_at_first(text.subrange(start, end), CharClass::Only('=')) {
                None => None,
                Some((key, _)) => if is_key(strings::trim(key)) {
                    Some(strings::trim(key))
                } else {
                    None
                },
            }
        },
    }
}

fn find_byte(chars: &[char], offset: usize) -> (place: Option<usize>)
    ensures
        match place {
            Some(place) => place <= chars.len() && place_of_byte(chars@, 0, offset as int) == Some(
                place as int,
            ),
            None => place_of_byte(chars@, 0, offset as int) is None,
        },
{
    let mut at: usize = 0;
    let mut left: usize = offset;
    while left > 0
        invariant
            at <= chars.len(),
            place_of_byte(chars@, at as int, left as int) == place_of_byte(
                chars@,
                0,
                offset as int,
            ),
        decreases chars.len() - at,
    {
        if at >= chars.len() {
            return None;
        }
        let code = chars[at] as u32;
        let width: usize = if code <= 0x7f {
            1
        } else if code <= 0x7ff {
            2
        } else if code <= 0xffff {
            3
        } else {
            4
        };
        assert(width == utf8_width(chars@[at as int]));
        if width > left {
            assert(place_of_byte(chars@, at + 1, left - width) is None);
            return None;
        }
        left -= width;
        at += 1;
    }
    Some(at)
}

fn is_key_text(text: &str) -> (held: bool)
    ensures
        held == is_key(text@),
{
    let chars = chars_of(text);
    let mut i: usize = 0;
    while i < chars.len()
        invariant
            i <= chars.len(),
            chars@ == text@,
            forall|k: int| 0 <= k < i ==> is_key_char(#[trigger] text@[k]),
        decreases chars.len() - i,
    {
        let c = chars[i];
        if !(('0' <= c && c <= '9') || ('A' <= c && c <= 'Z') || ('a' <= c && c <= 'z') || c == '_'
            || c == '-') {
            assert(!is_key_char(text@[i as int]));
            return false;
        }
        i += 1;
    }
    chars.len() > 0
}

/// The key that the line at a byte offset sets.
pub fn config_key_at_offset(text: &str, offset: usize) -> (key: Option<String>)
    ensures
        strings::text_option(key) == key_at_offset(text@, offset as int),
{
    let chars = chars_of(text);
    let at = match find_byte(&chars, offset) {
        Some(at) => at,
        None => {
            return None;
        },
    };
    let mut start: usize = at;
    while start > 0 && chars[start - 1] != '\n'
        invariant
            start <= at <= chars.len(),
            chars@ == text@,
            strings::rfind_class(text@, CharClass::Only('\n'), start as int)
                == strings::rfind_class(text@, CharClass::Only('\n'), at as int),
        decreases start,
    {
        start -= 1;
    }
    let end = find_class_from(&chars, CharClass::Only('\n'), at);
    proof {
        strings::lemma_find_class_bounds(text@, CharClass::Only('\n'), at as int);
    }
    let line = cut_string(&chars, start, end);
    match split_first(line.as_str(), CharClass::Only('=')) {
        None => None,
        Some((key, _)) => {
            let bare = trim_of(key.as_str());
            if is_key_text(bare.as_str()) {
                Some(bare)
            } else {
                None
            }
        },
    }
}

/// What kind of fault a parser's message tells of.
pub open spec fn classification(text: Seq<char>, detail: Seq<char>, span_start: Option<int>) -> Seq<char> {
    let field = match strings::split_at_text(detail, "unknown field `"@) {
        Some((_, tail)) => match strings::split_at_first(tail, CharClass::Only('`')) {
            Some((field, _)) => Some(field),
            None => None,
        },
        None => None,
    };
    let key = if strings::contains_text(detail, "duplicate key"@) && span_start is Some {
        key_at_offset(text, span_start->Some_0)
    } else {
        None
    };
    match (field, key) {
        (Some(field), _) => "unknown key `"@ + field + "`; "@,
        (None, Some(key)) => "duplicate key `"@ + key + "`; "@,
        (None, None) => if strings::contains_text(detail, "in array"@) {
            "invalid array; "@
        } else {
            Seq::empty()
        },
    }
}

/// What to say of a configuration that does not parse: the parser's message, what
/// kind of fault it tells of, and which keys there are.
pub fn config_parse_error(text: &str, detail: &str, span_start: Option<usize>) -> (message: String)
    ensures
        message@ == "invalid contextmink TOML: "@ + classification(
            text@,
            detail@,
            match span_start {
                Some(start) => Some(start as int),
                None => None,
            },
        ) + detail@ + "; accepted top-level keys: "@ + ACCEPTED_CONFIG_KEYS@,
{
    let field = match split_first_text(detail, "unknown field `") {
        Some((_, tail)) => match split_first(tail.as_str(), CharClass::Only('`')) {
            Some((field, _)) => Some(field),
            None => None,
        },
        None => None,
    };
    let kind = match field {
        Some(field) => "unknown key `".to_owned().concat(field.as_str()).concat("`; "),
        None => {
            let key = match span_start {
                Some(start) => if contains(detail, "duplicate key") {
                    config_key_at_offset(text, start)
                } else {
                    None
                },
                None => None,
            };
            match key {
                Some(key) => "duplicate key `".to_owned().concat(key.as_str()).concat("`; "),
                None => if contains(detail, "in array") {
                    "invalid array; ".to_owned()
                } else {
                    let empty = String::new();
                    assert(empty@ =~= Seq::empty());
                    empty
                },
            }
        },
    };
    "invalid contextmink TOML: ".to_owned().concat(kind.as_str()).concat(detail).concat(
        "; accepted top-level keys: ",
    ).concat(ACCEPTED_CONFIG_KEYS)
}

/// Why a configuration is refused.
#[derive(Debug)]
pub enum ConfigFault {
    Profile { fault: ProfileFault },
    /// A built-in glob, or one of the file's, cannot be used.
    Glob { builtin: bool, fault: GlobFault },
}

impl ConfigFault {
    pub open spec fn text(&self) -> Seq<char> {
        match self {
            ConfigFault::Profile { fault } => fault.text(),
            ConfigFault::Glob { builtin, fault: GlobFault::Pattern { pattern, detail } } => (
            if *builtin {
                "invalid builtin glob "@
            } else {
                "invalid exclude glob "@
            }) + pattern@ + ": "@ + detail@,
            ConfigFault::Glob { builtin, fault: GlobFault::Compile { detail } } => (if *builtin {
                "failed to build builtin exclude glob set: "@
            } else {
                "failed to build repository exclude glob set: "@
            }) + detail@,
        }
    }

    pub fn message(&self) -> (message: String)
        ensures
            message@ == self.text(),
    {
        match self {
            ConfigFault::Profile { fault } => fault.message(),
            ConfigFault::Glob { builtin, fault: GlobFault::Pattern { pattern, detail } } => (
            if *builtin {
                "invalid builtin glob "
            } else {
                "invalid exclude glob "
            }).to_owned().concat(pattern.as_str()).concat(": ").concat(detail.as_str()),
            ConfigFault::Glob { builtin, fault: GlobFault::Compile { detail } } => (if *builtin {
                "failed to build builtin exclude glob set: "
            } else {
                "failed to build repository exclude glob set: "
            }).to_owned().concat(detail.as_str()),
        }
    }
}

/// The texts of a list that may be missing.
pub open spec fn listed(list: Option<Vec<String>>) -> Seq<Seq<char>> {
    match list {
        Some(list) => strings::texts(list@),
        None => Seq::empty(),
    }
}

fn list_or_empty(list: Option<Vec<String>>) -> (texts: Vec<String>)
    ensures
        strings::texts(texts@) == listed(list),
{
    match list {
        Some(list) => list,
        None => {
            let empty: Vec<String> = Vec::new();
            assert(strings::texts(empty@) =~= Seq::empty());
            empty
        },
    }
}

/// Takes over a configuration. Its profile must be one, and its globs must be
/// globs; without globs of its own, and with a profile that is none, only the
/// built-in globs could still fail.
pub fn load_context_config(raw: ContextminkConfig, policy_root: Option<String>) -> (loaded: Result<
    ContextConfig,
    ConfigFault,
>)
    ensures
        match loaded {
            Ok(config) => {
                &&& strings::text_option(config.profile) == strings::text_option(raw.profile)
                &&& raw.profile matches Some(profile) ==> profile_fault(profile@) is None
                &&& strings::text_option(config.policy_root) == strings::text_option(policy_root)
                &&& globs::set_globs(config.builtin_excludes) == builtin_globs()
                &&& globs::set_globs(config.repository_excludes) == listed(raw.exclude_globs)
                &&& globs::all_plain(listed(raw.exclude_globs)) ==> globs::first_bad(
                    listed(raw.exclude_globs),
                    0,
                ) is None
                &&& strings::texts(config.destructive_guard.recursive_delete_fragments@) == listed(
                    raw.destructive_guard_recursive_delete_fragments,
                )
                &&& strings::texts(config.destructive_guard.delete_fragments@) == listed(
                    raw.destructive_guard_delete_fragments,
                )
            },
            Err(ConfigFault::Profile { fault }) => {
                &&& raw.profile is Some
                &&& profile_fault(raw.profile->Some_0@) == Some(fault)
            },
            Err(ConfigFault::Glob { builtin, fault }) => {
                &&& raw.profile matches Some(profile) ==> profile_fault(profile@) is None
                &&& !builtin ==> listed(raw.exclude_globs).len() > 0
                &&& !builtin && globs::all_plain(listed(raw.exclude_globs)) ==> match fault {
                    GlobFault::Pattern { pattern, detail } => globs::first_bad(
                        listed(raw.exclude_globs),
                        0,
                    ) == Some((pattern@, detail@)),
                    GlobFault::Compile { detail } => globs::first_bad(
                        listed(raw.exclude_globs),
                        0,
                    ) is None,
                }
            },
        },
{
    if let Some(profile) = &raw.profile {
        if let Err(fault) = validate_profile(profile.as_str()) {
            return Err(ConfigFault::Profile { fault });
        }
    }
    let builtin = builtin_excludes();
    let builtin_set = match build_globset(&builtin) {
        Ok(set) => set,
        Err(fault) => {
            return Err(ConfigFault::Glob { builtin: true, fault });
        },
    };
    let patterns = list_or_empty(raw.exclude_globs);
    let repository_set = match build_globset(&patterns) {
        Ok(set) => set,
        Err(fault) => {
            assert(strings::texts(patterns@).len() == patterns@.len());
            return Err(ConfigFault::Glob { builtin: false, fault });
        },
    };
    let recursive_delete_fragments = list_or_empty(
        raw.destructive_guard_recursive_delete_fragments,
    );
    let delete_fragments = list_or_empty(raw.destructive_guard_delete_fragments);
    Ok(
        ContextConfig {
            profile: raw.profile,
            builtin_excludes: builtin_set,
            repository_excludes: repository_set,
            policy_root,
            destructive_guard: DestructiveGuardConfig {
                recursive_delete_fragments,
                delete_fragments,
            },
        },
    )
}

/// A profile is refused if and only if nothing is left of it without white space, or
/// what is left is the placeholder, in whatever case.
pub proof fn profiles_are_named(profile: Seq<char>)
    ensures
        profile_fault(profile) is None <==> strings::trim(profile).len() > 0 && strings::lower_text(
            strings::trim(profile),
        ) != strings::lower_text(PLACEHOLDER_PROFILE@),
        profile_fault(Seq::empty()) is Some,
        profile_fault(profile) == profile_fault(strings::trim(profile)),
{
    let bare = strings::trim(profile);
    strings::trimming_takes_space_off_both_ends(profile);
    strings::trimmed_text_stays(bare);
    strings::trimmed_text_stays(Seq::empty());
}

/// A configuration file lies in the directory that its path names before its own name;
/// the policy's root is that directory.
pub proof fn policy_root_is_the_directory_of_the_file(name: Seq<char>, directory: Seq<char>)
    requires
        paths::is_plain_name(name, Host::Posix),
        paths::is_plain_name(directory, Host::Posix),
    ensures
        directory_of(directory + seq!['/'] + name, Host::Posix) == directory,
        directory_of(name, Host::Posix) == "."@,
{
    paths::names_are_last_components(directory, name, Host::Posix);
    paths::names_are_last_components(name, directory, Host::Posix);
    let list = paths::components(directory + seq!['/'] + name, Host::Posix);
    assert(list =~= seq![directory, name]);
    assert(list.drop_last() =~= seq![directory]);
    reveal_strlit("/");
    assert("/"@[0] == '/');
    assert(directory[0] != '/');
    assert(list.drop_last()[0] == directory);
    assert(strings::join_texts(seq![directory], "/"@) == directory);
}

} // verus!
