//! Paths as texts: how they are cut into components, related and displayed.
use vstd::prelude::*;

use crate::strings;
use crate::strings::{
    char_in_class, chars_of, copy_strings, cut_string, push_text, rfind_class_of, same_text,
    split_text, string_of, CharClass,
};

verus! {

/// The family of hosts, which decides what separates the components of a path.
#[derive(Debug, Clone, Copy, PartialEq, Eq, Structural)]
pub enum Host {
    Posix,
    Windows,
}

impl Host {
    pub open spec fn separators(self) -> CharClass {
        match self {
            Host::Posix => CharClass::Only('/'),
            Host::Windows => CharClass::Separator,
        }
    }

    pub fn separator_class(self) -> (class: CharClass)
        ensures
            class == self.separators(),
    {
        match self {
            Host::Posix => CharClass::Only('/'),
            Host::Windows => CharClass::Separator,
        }
    }
}

/// A text with every backslash turned into a slash.
pub open spec fn slashes(text: Seq<char>) -> Seq<char> {
    text.map_values(
        |c: char|
            if c == '\\' {
                '/'
            } else {
                c
            },
    )
}

/// A text with every backslash turned into a slash.
pub fn to_slashes(text: &str) -> (changed: String)
    ensures
        changed@ == slashes(text@),
{
    let chars = chars_of(text);
    let mut changed: Vec<char> = Vec::new();
    let mut i: usize = 0;
    while i < chars.len()
        invariant
            i <= chars.len(),
            chars@ == text@,
            changed@.len() == i,
            forall|k: int| 0 <= k < i ==> changed@[k] == slashes(text@)[k],
        decreases chars.len() - i,
    {
        changed.push(
            if chars[i] == '\\' {
                '/'
            } else {
                chars[i]
            },
        );
        i += 1;
    }
    assert(changed@ =~= slashes(text@));
    string_of(&changed)
}

/// A path as it is written with slashes: on a POSIX host a backslash is a
/// character like any other.
pub open spec fn portable(text: Seq<char>, host: Host) -> Seq<char> {
    match host {
        Host::Posix => text,
        Host::Windows => slashes(text),
    }
}

/// A fragment of a path as a user writes it, with slashes.
pub fn normalize_user_path_fragment(fragment: &str, host: Host) -> (normalized: String)
    ensures
        normalized@ == portable(fragment@, host),
{
    match host {
        Host::Posix => fragment.to_owned(),
        Host::Windows => to_slashes(fragment),
    }
}

/// Whether the path starts with the current directory.
pub open spec fn starts_here(text: Seq<char>, host: Host) -> bool {
    &&& text.len() > 0
    &&& text[0] == '.'
    &&& text.len() == 1 || strings::in_class(host.separators(), text[1])
}

/// Where the first component other than `.` starts.
pub open spec fn front(text: Seq<char>, host: Host, at: int) -> int
    decreases text.len() - at,
{
    if at < 0 || at >= text.len() {
        at
    } else if strings::in_class(host.separators(), text[at]) {
        front(text, host, at + 1)
    } else if text[at] == '.' && (at + 1 >= text.len() || strings::in_class(
        host.separators(),
        text[at + 1],
    )) {
        front(text, host, at + 1)
    } else {
        at
    }
}

/// Where the last component other than `.` ends.
pub open spec fn back(text: Seq<char>, host: Host, low: int, end: int) -> int
    decreases end - low,
{
    if end <= low || end > text.len() || low < 0 {
        end
    } else if strings::in_class(host.separators(), text[end - 1]) {
        back(text, host, low, end - 1)
    } else if text[end - 1] == '.' && (end - 1 == low || strings::in_class(
        host.separators(),
        text[end - 2],
    )) {
        back(text, host, low, end - 1)
    } else {
        end
    }
}

/// A path without the current directory in front, with slashes.
pub open spec fn normalized(text: Seq<char>, host: Host) -> Seq<char> {
    if starts_here(text, host) {
        let low = front(text, host, 0);
        portable(text.subrange(low, back(text, host, low, text.len() as int)), host)
    } else {
        portable(text, host)
    }
}

/// A path without the current directory in front, with slashes.
pub fn normalize_path(path: &str, host: Host) -> (text: String)
    ensures
        text@ == normalized(path@, host),
{
    let chars = chars_of(path);
    let class = host.separator_class();
    let here = chars.len() > 0 && chars[0] == '.' && (chars.len() == 1 || char_in_class(
        class,
        chars[1],
    ));
    if !here {
        return normalize_user_path_fragment(path, host);
    }
    let mut low: usize = 0;
    while low < chars.len() && (char_in_class(class, chars[low]) || (chars[low] == '.' && (low + 1
        >= chars.len() || char_in_class(class, chars[low + 1]))))
        invariant
            low <= chars.len(),
            chars@ == path@,
            class == host.separators(),
            front(path@, host, low as int) == front(path@, host, 0),
        decreases chars.len() - low,
    {
        low += 1;
    }
    let mut end: usize = chars.len();
    while end > low && (char_in_class(class, chars[end - 1]) || (chars[end - 1] == '.' && (end - 1
        == low || char_in_class(class, chars[end - 2]))))
        invariant
            low <= end <= chars.len(),
            chars@ == path@,
            class == host.separators(),
            back(path@, host, low as int, end as int) == back(
                path@,
                host,
                low as int,
                path@.len() as int,
            ),
        decreases end - low,
    {
        end -= 1;
    }
    normalize_user_path_fragment(cut_string(&chars, low, end).as_str(), host)
}

/// A path as it is displayed.
pub fn display_path(path: &str, host: Host) -> (text: String)
    ensures
        text@ == normalized(path@, host),
{
    normalize_path(path, host)
}

/// Where `./` in front, however often, ends.
pub open spec fn after_dots(text: Seq<char>, at: int) -> int
    decreases text.len() - at + 1,
{
    if 0 <= at && at + 1 < text.len() && text[at] == '.' && text[at + 1] == '/' {
        after_dots(text, at + 2)
    } else {
        at
    }
}

/// A path without `./` in front and slashes behind.
pub open spec fn trimmed_path(text: Seq<char>) -> Seq<char> {
    strings::trim_end(text.skip(after_dots(text, 0)), CharClass::Only('/'))
}

/// A path without `./` in front and slashes behind.
pub fn trim_normalized_path(path: &str) -> (trimmed: String)
    ensures
        trimmed@ == trimmed_path(path@),
{
    let chars = chars_of(path);
    let mut at: usize = 0;
    while chars.len() - at > 1 && chars[at] == '.' && chars[at + 1] == '/'
        invariant
            at <= chars.len(),
            chars@ == path@,
            after_dots(path@, at as int) == after_dots(path@, 0),
        decreases chars.len() - at,
    {
        at += 2;
    }
    let rest = strings::cut(&chars, at, chars.len());
    assert(rest@ =~= path@.skip(at as int));
    string_of(&strings::trim_end_of(&rest, CharClass::Only('/')))
}

/// The parts of a path that are components: neither empty nor `.`, unless the path
/// starts with it.
pub open spec fn kept_parts(parts: Seq<Seq<char>>, n: nat) -> Seq<Seq<char>>
    decreases n,
{
    if n == 0 || n > parts.len() {
        Seq::empty()
    } else {
        let before = kept_parts(parts, (n - 1) as nat);
        let part = parts[n - 1];
        if part.len() == 0 || (part == "."@ && n > 1) {
            before
        } else {
            before.push(part)
        }
    }
}

/// The components of a path; the root is a component of its own.
pub open spec fn components(text: Seq<char>, host: Host) -> Seq<Seq<char>> {
    let parts = strings::parts_of(text, host.separators());
    (if text.len() > 0 && strings::in_class(host.separators(), text[0]) {
        seq!["/"@]
    } else {
        Seq::empty()
    }) + kept_parts(parts, parts.len())
}

/// The components of a path; the root is a component of its own.
pub fn components_of(path: &str, host: Host) -> (list: Vec<String>)
    ensures
        strings::texts(list@) == components(path@, host),
{
    let chars = chars_of(path);
    let class = host.separator_class();
    let parts = split_text(path, class);
    let ghost texts = strings::texts(parts@);
    let mut list: Vec<String> = Vec::new();
    if chars.len() > 0 && char_in_class(class, chars[0]) {
        list.push("/".to_owned());
    }
    let ghost root = strings::texts(list@);
    assert(root =~= if path@.len() > 0 && strings::in_class(host.separators(), path@[0]) {
        seq!["/"@]
    } else {
        Seq::empty()
    });
    let mut i: usize = 0;
    assert(strings::texts(list@) =~= root + kept_parts(texts, 0));
    while i < parts.len()
        invariant
            i <= parts.len(),
            texts == strings::texts(parts@),
            strings::texts(list@) == root + kept_parts(texts, i as nat),
        decreases parts.len() - i,
    {
        assert(texts[i as int] == parts@[i as int]@);
        let part = parts[i].as_str();
        let ghost before = strings::texts(list@);
        if !part.is_empty() && !(same_text(part, ".") && i > 0) {
            push_text(&mut list, parts[i].clone());
        }
        assert(strings::texts(list@) =~= root + kept_parts(texts, (i + 1) as nat));
        i += 1;
    }
    list
}

/// The components of a path below a directory, if it is there.
pub open spec fn below(path: Seq<char>, root: Seq<char>, host: Host) -> Option<Seq<Seq<char>>> {
    let whole = components(path, host);
    let head = components(root, host);
    if head.is_prefix_of(whole) {
        Some(whole.skip(head.len() as int))
    } else {
        None
    }
}

/// The components of a path below a directory, if it is there.
pub fn components_below(path: &str, root: &str, host: Host) -> (rest: Option<Vec<String>>)
    ensures
        match rest {
            Some(rest) => below(path@, root@, host) == Some(strings::texts(rest@)),
            None => below(path@, root@, host) is None,
        },
{
    let whole = components_of(path, host);
    let head = components_of(root, host);
    let ghost all = strings::texts(whole@);
    let ghost first = strings::texts(head@);
    if head.len() > whole.len() {
        return None;
    }
    let mut i: usize = 0;
    while i < head.len()
        invariant
            i <= head.len() <= whole.len(),
            all == strings::texts(whole@),
            first == strings::texts(head@),
            all == components(path@, host),
            first == components(root@, host),
            forall|k: int| 0 <= k < i ==> all[k] == first[k],
        decreases head.len() - i,
    {
        assert(all[i as int] == whole@[i as int]@);
        assert(first[i as int] == head@[i as int]@);
        if !same_text(whole[i].as_str(), head[i].as_str()) {
            assert(all.take(first.len() as int)[i as int] != first[i as int]);
            return None;
        }
        i += 1;
    }
    assert(first.is_prefix_of(all));
    let mut rest: Vec<String> = Vec::new();
    assert(strings::texts(rest@) =~= all.subrange(head@.len() as int, head@.len() as int));
    while i < whole.len()
        invariant
            head.len() <= i <= whole.len(),
            all == strings::texts(whole@),
            strings::texts(rest@) == all.subrange(head@.len() as int, i as int),
        decreases whole.len() - i,
    {
        assert(all[i as int] == whole@[i as int]@);
        push_text(&mut rest, whole[i].clone());
        assert(all.subrange(head@.len() as int, i + 1) =~= all.subrange(
            head@.len() as int,
            i as int,
        ).push(all[i as int]));
        i += 1;
    }
    assert(all.subrange(head@.len() as int, i as int) =~= all.skip(head@.len() as int));
    Some(rest)
}

/// The last component of a path, if it is a name.
pub open spec fn name_of(path: Seq<char>, host: Host) -> Option<Seq<char>> {
    let list = components(path, host);
    if list.len() == 0 || list.last() == "/"@ || list.last() == "."@ || list.last() == ".."@ {
        None
    } else {
        Some(list.last())
    }
}

/// The last component of a path, if it is a name.
pub fn file_name(path: &str, host: Host) -> (name: Option<String>)
    ensures
        strings::text_option(name) == name_of(path@, host),
{
    let list = components_of(path, host);
    if list.len() == 0 {
        return None;
    }
    let last = list[list.len() - 1].clone();
    assert(strings::texts(list@).last() == last@);
    if same_text(last.as_str(), "/") || same_text(last.as_str(), ".") || same_text(
        last.as_str(),
        "..",
    ) {
        None
    } else {
        Some(last)
    }
}

/// What stands behind the last dot of a name, if something stands in front of it.
pub open spec fn extension_of(name: Seq<char>) -> Option<Seq<char>> {
    let after = strings::rfind_class(name, CharClass::Only('.'), name.len() as int);
    if after <= 1 {
        None
    } else {
        Some(name.skip(after))
    }
}

/// The extension of the last component of a path.
pub open spec fn path_extension(path: Seq<char>, host: Host) -> Option<Seq<char>> {
    match name_of(path, host) {
        Some(name) => extension_of(name),
        None => None,
    }
}

/// The extension of the last component of a path.
pub fn file_extension(path: &str, host: Host) -> (extension: Option<String>)
    ensures
        strings::text_option(extension) == path_extension(path@, host),
{
    match file_name(path, host) {
        None => None,
        Some(name) => {
            let chars = chars_of(name.as_str());
            let after = rfind_class_of(&chars, CharClass::Only('.'));
            if after <= 1 {
                None
            } else {
                let text = cut_string(&chars, after, chars.len());
                assert(text@ =~= name@.skip(after as int));
                Some(text)
            }
        },
    }
}

/// A path below another one.
pub open spec fn joined(base: Seq<char>, part: Seq<char>, host: Host) -> Seq<char> {
    if base.len() == 0 || strings::in_class(host.separators(), base.last()) {
        base + part
    } else {
        base + "/"@ + part
    }
}

/// A path below another one.
pub fn join_path(base: &str, part: &str, host: Host) -> (path: String)
    ensures
        path@ == joined(base@, part@, host),
{
    let chars = chars_of(base);
    if chars.len() == 0 || char_in_class(host.separator_class(), chars[chars.len() - 1]) {
        base.to_owned().concat(part)
    } else {
        base.to_owned().concat("/").concat(part)
    }
}

/// A canonical path with slashes, without the verbatim prefix of Windows and
/// without slashes behind.
pub open spec fn canonical(text: Seq<char>) -> Seq<char> {
    let forward = slashes(text);
    strings::trim_end(
        match strings::without_prefix(forward, "//?/"@) {
            Some(rest) => rest,
            None => forward,
        },
        CharClass::Only('/'),
    )
}

/// A canonical path with slashes, without the verbatim prefix of Windows and
/// without slashes behind.
pub fn canonical_normalized(path: &str) -> (text: String)
    ensures
        text@ == canonical(path@),
{
    let forward = to_slashes(path);
    let rest = match strings::strip_prefix(forward.as_str(), "//?/") {
        Some(rest) => rest,
        None => forward,
    };
    let chars = chars_of(rest.as_str());
    string_of(&strings::trim_end_of(&chars, CharClass::Only('/')))
}

/// The paths that were given, or the current directory.
pub open spec fn or_current(paths: Seq<Seq<char>>) -> Seq<Seq<char>> {
    if paths.len() == 0 {
        seq!["."@]
    } else {
        paths
    }
}

/// The paths that were given, or the current directory.
pub fn paths_or_current_dir(paths: &[String]) -> (chosen: Vec<String>)
    ensures
        strings::texts(chosen@) == or_current(strings::texts(paths@)),
{
    if paths.len() == 0 {
        let mut chosen: Vec<String> = Vec::new();
        chosen.push(".".to_owned());
        assert(strings::texts(chosen@) =~= seq!["."@]);
        assert(strings::texts(paths@).len() == 0);
        return chosen;
    }
    assert(strings::texts(paths@).len() > 0);
    copy_strings(paths)
}

/// What a path is sorted by: its components one after the other, with the root
/// before `.`, `.` before `..`, and `..` before names.
pub open spec fn component_key(component: Seq<char>) -> Seq<char> {
    (if component == "/"@ {
        seq!['\u{1}']
    } else if component == "."@ {
        seq!['\u{2}']
    } else if component == ".."@ {
        seq!['\u{3}']
    } else {
        seq!['\u{4}'] + component
    }).push('\0')
}

pub open spec fn keys_of(list: Seq<Seq<char>>, n: nat) -> Seq<char>
    decreases n,
{
    if n == 0 || n > list.len() {
        Seq::empty()
    } else {
        keys_of(list, (n - 1) as nat) + component_key(list[n - 1])
    }
}

pub open spec fn path_key(path: Seq<char>, host: Host) -> Seq<char> {
    let list = components(path, host);
    keys_of(list, list.len())
}

/// What a path is sorted by.
pub fn sort_key(path: &str, host: Host) -> (key: String)
    ensures
        key@ == path_key(path@, host),
{
    let list = components_of(path, host);
    let ghost texts = strings::texts(list@);
    let mut key = String::new();
    let mut i: usize = 0;
    while i < list.len()
        invariant
            i <= list.len(),
            texts == strings::texts(list@),
            key@ == keys_of(texts, i as nat),
        decreases list.len() - i,
    {
        assert(texts[i as int] == list@[i as int]@);
        let ghost before = key@;
        let part = list[i].as_str();
        if same_text(part, "/") {
            key.push('\u{1}');
        } else if same_text(part, ".") {
            key.push('\u{2}');
        } else if same_text(part, "..") {
            key.push('\u{3}');
        } else {
            key.push('\u{4}');
            key.append(part);
        }
        key.push('\0');
        assert(key@ =~= before + component_key(part@));
        i += 1;
    }
    key
}

/// Whether a text is the name of a file or directory: not empty, without separators, and
/// neither the current nor the parent directory.
pub open spec fn is_plain_name(name: Seq<char>, host: Host) -> bool {
    &&& name.len() > 0
    &&& forall|i: int|
        0 <= i < name.len() ==> (#[trigger] name[i] != '/' && (host == Host::Windows ==> name[i]
            != '\\'))
    &&& name != seq!['.']
    &&& name != seq!['.', '.']
}

/// A name below a directory adds one component to those of the directory, and is the
/// name of the path.
pub proof fn names_are_last_components(directory: Seq<char>, name: Seq<char>, host: Host)
    requires
        is_plain_name(name, host),
        directory.len() > 0,
    ensures
        components(directory + seq!['/'] + name, host) == components(directory, host).push(name),
        name_of(directory + seq!['/'] + name, host) == Some(name),
        below(directory + seq!['/'] + name, directory, host) == Some(seq![name]),
        components(name, host) == seq![name],
        name_of(name, host) == Some(name),
{
    let class = host.separators();
    let path = directory + seq!['/'] + name;
    strings::parts_of_joined_texts(directory, '/', name, class);
    strings::lemma_single_part(name, class);
    let parts = strings::parts_of(directory, class);
    let all = strings::parts_of(path, class);
    assert(all =~= parts.push(name));
    lemma_parts_exist(directory, class);
    lemma_kept_alike(parts, all, parts.len());
    reveal_strlit(".");
    reveal_strlit("..");
    reveal_strlit("/");
    assert("."@ =~= seq!['.']);
    assert(".."@ =~= seq!['.', '.']);
    if name == "/"@ {
        assert(name[0] == '/');
    }
    assert(kept_parts(all, all.len()) == kept_parts(parts, parts.len()).push(name));
    assert(path[0] == directory[0]);
    assert(components(path, host) =~= components(directory, host).push(name));
    let whole = components(path, host);
    let head = components(directory, host);
    assert(head =~= whole.take(head.len() as int));
    assert(whole.skip(head.len() as int) =~= seq![name]);
    let alone = seq![name];
    assert(kept_parts(alone, 0) =~= Seq::empty());
    assert(kept_parts(alone, 1) =~= alone);
    assert(components(name, host) =~= alone);
}

proof fn lemma_parts_exist(text: Seq<char>, class: CharClass)
    ensures
        strings::parts_of(text, class).len() > 0,
{
    strings::lemma_find_class_bounds(text, class, 0);
}

proof fn lemma_kept_alike(parts: Seq<Seq<char>>, more: Seq<Seq<char>>, n: nat)
    requires
        n <= parts.len(),
        parts.is_prefix_of(more),
    ensures
        kept_parts(more, n) == kept_parts(parts, n),
    decreases n,
{
    if n > 0 {
        lemma_kept_alike(parts, more, (n - 1) as nat);
        assert(more[n - 1] == parts[n - 1]);
    }
}

/// The extension of a name is what stands behind its last dot; a name without a dot, or
/// with none but the first of its characters, has no extension.
pub proof fn extensions_stand_behind_the_last_dot(stem: Seq<char>, extension: Seq<char>)
    requires
        !extension.contains('.'),
    ensures
        stem.len() > 0 ==> extension_of(stem + seq!['.'] + extension) == Some(extension),
        extension_of(seq!['.'] + extension) is None,
        extension_of(extension) is None,
{
    let name = stem + seq!['.'] + extension;
    lemma_last_dot(name, stem.len() as int, name.len() as int, extension);
    assert(name.skip(stem.len() as int + 1) =~= extension);
    let hidden = seq!['.'] + extension;
    lemma_last_dot(hidden, 0, hidden.len() as int, extension);
    lemma_no_dot(extension, extension.len() as int);
}

proof fn lemma_last_dot(name: Seq<char>, at: int, to: int, extension: Seq<char>)
    requires
        0 <= at < to <= name.len(),
        name[at] == '.',
        !extension.contains('.'),
        name.len() == at + 1 + extension.len(),
        forall|i: int| at < i < name.len() ==> #[trigger] name[i] == extension[i - at - 1],
    ensures
        strings::rfind_class(name, CharClass::Only('.'), to) == at + 1,
    decreases to,
{
    if to - 1 > at {
        assert(name[to - 1] == extension[to - 2 - at]);
        assert(extension.contains(extension[to - 2 - at]));
        lemma_last_dot(name, at, to - 1, extension);
    }
}

proof fn lemma_no_dot(text: Seq<char>, to: int)
    requires
        0 <= to <= text.len(),
        !text.contains('.'),
    ensures
        strings::rfind_class(text, CharClass::Only('.'), to) == 0,
    decreases to,
{
    if to > 0 {
        assert(text.contains(text[to - 1]));
        lemma_no_dot(text, to - 1);
    }
}

/// A trimmed path does not end in a slash nor start with `./`, and is the path without
/// such a beginning and such an end; a path that has neither stays as it is.
pub proof fn trimmed_paths_are_bare(text: Seq<char>)
    ensures
        trimmed_path(text).len() > 0 ==> trimmed_path(text).last() != '/',
        text.len() > 0 && text.last() != '/' && !(text.len() >= 2 && text[0] == '.' && text[1]
            == '/') ==> trimmed_path(text) == text,
        exists|before: Seq<char>, behind: Seq<char>|
            {
                &&& text == #[trigger] (before + trimmed_path(text) + behind)
                &&& forall|i: int|
                    0 <= i < before.len() ==> (#[trigger] before[i] == '.' || before[i] == '/')
                &&& forall|i: int| 0 <= i < behind.len() ==> #[trigger] behind[i] == '/'
            },
{
    let at = after_dots(text, 0);
    lemma_dots_skipped(text, 0);
    let rest = text.skip(at);
    let to = strings::rskip_class(rest, CharClass::Only('/'), rest.len() as int);
    strings::lemma_skipped_back(rest, CharClass::Only('/'), rest.len() as int);
    let before = text.take(at);
    let behind = rest.skip(to);
    assert(text =~= before + trimmed_path(text) + behind);
    if to > 0 {
        assert(trimmed_path(text).last() == rest[to - 1]);
    }
    if text.len() > 0 && text.last() != '/' && !(text.len() >= 2 && text[0] == '.' && text[1]
        == '/') {
        assert(at == 0);
        assert(rest =~= text);
        assert(trimmed_path(text) =~= text);
    }
}

proof fn lemma_dots_skipped(text: Seq<char>, at: int)
    requires
        0 <= at <= text.len(),
    ensures
        at <= after_dots(text, at) <= text.len(),
        forall|i: int| at <= i < after_dots(text, at) ==> (#[trigger] text[i] == '.' || text[i] == '/'),
    decreases text.len() - at,
{
    if at + 1 < text.len() && text[at] == '.' && text[at + 1] == '/' {
        lemma_dots_skipped(text, at + 2);
    }
}

/// Only Windows reads a backslash as a separator: elsewhere a path that does not start
/// with the current directory is shown as it is, and there it is shown with slashes.
pub proof fn paths_are_shown_with_slashes(text: Seq<char>, host: Host)
    requires
        text.len() > 0 ==> text[0] != '.',
    ensures
        host == Host::Posix ==> normalized(text, host) == text,
        host == Host::Windows ==> normalized(text, host).len() == text.len() && (forall|i: int|
            0 <= i < text.len() ==> #[trigger] normalized(text, host)[i] == if text[i] == '\\' {
                '/'
            } else {
                text[i]
            }),
{
}

} // verus!
