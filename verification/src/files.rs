//! Which files a scan selects: the rules by which a path is excluded or included,
//! and the order and bound of what was found.
use std::collections::HashSet;

use vstd::prelude::*;

use crate::config::ContextConfig;
use crate::globs;
use crate::globs::{build_globset, GlobFault, PatternSet};
use crate::ordering;
use crate::ordering::stands_before;
use crate::paths;
use crate::paths::{
    components_below, file_extension, file_name, normalize_path, normalize_user_path_fragment,
    sort_key, trim_normalized_path, Host,
};
use crate::strings;
use crate::strings::{
    chars_of, contains, join, push_text, same_text, same_text_ignoring_case, split_text,
    string_of, strip_prefix, to_lower, trim_of, CharClass,
};

verus! {

/// A file or directory that a scan starts from, and what is known of it.
#[derive(Debug)]
pub struct ScanRoot {
    pub path: String,
    pub is_file: bool,
    pub is_dir: bool,
    /// Its canonical path, if it has one.
    pub canonical: Option<String>,
}

/// Relates the paths of a scan to its root and to the directory of the policy.
/// Globs to select files apply below the former, the repository's own exclusions
/// below the latter.
#[derive(Debug)]
pub struct PolicyMapper {
    pub scan_root: String,
    pub root_is_file: bool,
    /// Where the root lies below the policy's directory, if it does.
    pub policy_prefix: Option<String>,
    pub host: Host,
}

pub open spec fn prefix_below(policy_root: Option<Seq<char>>, canonical: Option<Seq<char>>) -> Option<
    Seq<char>,
> {
    match (policy_root, canonical) {
        (Some(policy_root), Some(canonical)) => if canonical == policy_root {
            Some(Seq::empty())
        } else {
            strings::without_prefix(canonical, policy_root + "/"@)
        },
        _ => None,
    }
}

impl PolicyMapper {
    pub fn for_root(root: &ScanRoot, policy_root: &Option<String>, host: Host) -> (mapper:
        PolicyMapper)
        ensures
            mapper.scan_root@ == root.path@,
            mapper.root_is_file == root.is_file,
            strings::text_option(mapper.policy_prefix) == prefix_below(
                strings::text_option(*policy_root),
                strings::text_option(root.canonical),
            ),
            mapper.host == host,
    {
        let policy_prefix = match (policy_root, &root.canonical) {
            (Some(policy_root), Some(canonical)) => if same_text(
                canonical.as_str(),
                policy_root.as_str(),
            ) {
                let empty = String::new();
                assert(empty@ =~= Seq::empty());
                Some(empty)
            } else {
                strip_prefix(canonical.as_str(), policy_root.clone().concat("/").as_str())
            },
            _ => None,
        };
        PolicyMapper {
            scan_root: root.path.clone(),
            root_is_file: root.is_file,
            policy_prefix,
            host,
        }
    }

    /// The path below the scan's root; the name of a root that is a file.
    pub open spec fn scanned(&self, path: Seq<char>) -> Seq<char> {
        let relative = match paths::below(path, self.scan_root@, self.host) {
            Some(rest) => strings::join_texts(rest, "/"@),
            None => path,
        };
        let selected = if relative.len() == 0 && self.root_is_file {
            match paths::name_of(path, self.host) {
                Some(name) => name,
                None => path,
            }
        } else {
            relative
        };
        paths::trimmed_path(paths::normalized(selected, self.host))
    }

    pub fn scan_path(&self, path: &str) -> (text: String)
        ensures
            text@ == self.scanned(path@),
    {
        let relative = match components_below(path, self.scan_root.as_str(), self.host) {
            Some(rest) => join(&rest, "/"),
            None => path.to_owned(),
        };
        let selected = if relative.as_str().is_empty() && self.root_is_file {
            match file_name(path, self.host) {
                Some(name) => name,
                None => path.to_owned(),
            }
        } else {
            relative
        };
        trim_normalized_path(normalize_path(selected.as_str(), self.host).as_str())
    }

    /// The path below the policy's directory, if it lies there.
    pub open spec fn governed(&self, scan_path: Seq<char>) -> Option<Seq<char>> {
        match self.policy_prefix {
            None => None,
            Some(prefix) => if self.root_is_file || scan_path.len() == 0 {
                Some(prefix@)
            } else if prefix@.len() == 0 {
                Some(scan_path)
            } else {
                Some(prefix@ + "/"@ + scan_path)
            },
        }
    }

    pub fn policy_path(&self, scan_path: &str) -> (text: Option<String>)
        ensures
            strings::text_option(text) == self.governed(scan_path@),
    {
        match &self.policy_prefix {
            None => None,
            Some(prefix) => if self.root_is_file || scan_path.is_empty() {
                Some(prefix.clone())
            } else if prefix.as_str().is_empty() {
                Some(scan_path.to_owned())
            } else {
                Some(prefix.clone().concat("/").concat(scan_path))
            },
        }
    }
}

/// Whether the globs match a path, or, for a directory, what lies in it.
pub open spec fn policy_matches(globs: Seq<Seq<char>>, path: Seq<char>, is_dir: bool) -> bool {
    globs::some_glob_matches(globs, path) || (is_dir && globs::some_glob_matches(
        globs,
        path + "/__contextmink_probe__"@,
    ))
}

/// Whether the globs match a path, or, for a directory, what lies in it.
pub fn matches_exclude_policy(path: &str, is_dir: bool, excludes: &PatternSet) -> (held: bool)
    ensures
        globs::plain(path@) && globs::all_plain(globs::set_globs(*excludes)) ==> held
            == policy_matches(globs::set_globs(*excludes), path@, is_dir),
        globs::set_globs(*excludes).len() == 0 ==> !held,
{
    proof {
        reveal_strlit("/__contextmink_probe__");
    }
    if excludes.is_match(path) {
        return true;
    }
    is_dir && excludes.is_match(path.to_owned().concat("/__contextmink_probe__").as_str())
}

/// What is left of a path below a root, if it lies there.
pub open spec fn below_root(path: Seq<char>, root: Seq<char>) -> Option<Seq<char>> {
    if path == root {
        Some(Seq::empty())
    } else {
        match strings::without_prefix(path, root) {
            Some(rest) => strings::without_prefix(rest, "/"@),
            None => None,
        }
    }
}

/// What is left of a path below the longest of the first `n` roots that it lies
/// below, and how long that root is.
pub open spec fn below_longest(path: Seq<char>, roots: Seq<Seq<char>>, n: nat) -> Option<
    (nat, Seq<char>),
>
    decreases n,
{
    if n == 0 || n > roots.len() {
        None
    } else {
        let best = below_longest(path, roots, (n - 1) as nat);
        match below_root(path, roots[n - 1]) {
            None => best,
            Some(rest) => match best {
                Some((length, _)) => if roots[n - 1].len() >= length {
                    Some((roots[n - 1].len(), rest))
                } else {
                    best
                },
                None => Some((roots[n - 1].len(), rest)),
            },
        }
    }
}

pub open spec fn relative_to_roots(path: Seq<char>, roots: Seq<Seq<char>>) -> Option<Seq<char>> {
    match below_longest(paths::trimmed_path(path), roots, roots.len()) {
        Some((_, rest)) => Some(rest),
        None => None,
    }
}

/// What is left of a path below the longest of the roots that it lies below.
pub fn relative_to_explicit_excluded_root(path: &str, roots: &[String]) -> (rest: Option<String>)
    ensures
        strings::text_option(rest) == relative_to_roots(path@, strings::texts(roots@)),
{
    let ghost texts = strings::texts(roots@);
    let trimmed = trim_normalized_path(path);
    let mut best: Option<(usize, String)> = None;
    let mut i: usize = 0;
    while i < roots.len()
        invariant
            i <= roots.len(),
            texts == strings::texts(roots@),
            trimmed@ == paths::trimmed_path(path@),
            match best {
                Some((length, rest)) => below_longest(trimmed@, texts, i as nat) == Some(
                    (length as nat, rest@),
                ),
                None => below_longest(trimmed@, texts, i as nat) is None,
            },
        decreases roots.len() - i,
    {
        assert(texts[i as int] == roots@[i as int]@);
        let root = roots[i].as_str();
        let rest = if same_text(trimmed.as_str(), root) {
            let empty = String::new();
            assert(empty@ =~= Seq::empty());
            Some(empty)
        } else {
            match strip_prefix(trimmed.as_str(), root) {
                Some(rest) => strip_prefix(rest.as_str(), "/"),
                None => None,
            }
        };
        if let Some(rest) = rest {
            let length = chars_of(root).len();
            let longer = match &best {
                Some((known, _)) => length >= *known,
                None => true,
            };
            if longer {
                best = Some((length, rest));
            }
        }
        i += 1;
    }
    match best {
        Some((_, rest)) => Some(rest),
        None => None,
    }
}

/// Whether a path is excluded, given whether the globs match it, and whether they
/// match what is left of it below an excluded root that was asked for: what lies in
/// such a root is excluded only by rules that apply below it.
pub fn exclusion_holds(
    path: &str,
    matched: bool,
    relative: &Option<String>,
    relative_matched: bool,
) -> (held: bool)
    ensures
        held == (path@.len() > 0 && path@ != "."@ && matched && (relative is None || (
        relative->Some_0@.len() > 0 && relative_matched))),
{
    if path.is_empty() || same_text(path, ".") || !matched {
        return false;
    }
    match relative {
        None => true,
        Some(rest) => !rest.as_str().is_empty() && relative_matched,
    }
}

/// Whether a path below the policy's directory is excluded.
pub open spec fn excluded_by_policy(
    path: Seq<char>,
    is_dir: bool,
    globs: Seq<Seq<char>>,
    roots: Seq<Seq<char>>,
) -> bool {
    &&& path.len() > 0
    &&& path != "."@
    &&& policy_matches(globs, path, is_dir)
    &&& match relative_to_roots(path, roots) {
        None => true,
        Some(rest) => rest.len() > 0 && policy_matches(globs, rest, is_dir),
    }
}

proof fn lemma_rest_is_plain(path: Seq<char>, roots: Seq<Seq<char>>, n: nat)
    requires
        globs::plain(path),
    ensures
        below_longest(path, roots, n) matches Some((_, rest)) ==> globs::plain(rest),
    decreases n,
{
    if n > 0 && n <= roots.len() {
        lemma_rest_is_plain(path, roots, (n - 1) as nat);
    }
}

proof fn lemma_trimmed_is_plain(path: Seq<char>)
    requires
        globs::plain(path),
    ensures
        globs::plain(paths::trimmed_path(path)),
{
    lemma_after_dots_bounds(path, 0);
    let rest = path.skip(paths::after_dots(path, 0));
    strings::lemma_rskip_class_bounds(rest, CharClass::Only('/'), rest.len() as int);
    assert forall|i: int| 0 <= i < rest.len() implies #[trigger] rest[i] != '\\' by {
        assert(rest[i] == path[i + paths::after_dots(path, 0)]);
    }
}

proof fn lemma_after_dots_bounds(text: Seq<char>, at: int)
    requires
        0 <= at <= text.len(),
    ensures
        at <= paths::after_dots(text, at) <= text.len(),
    decreases text.len() - at,
{
    if at + 1 < text.len() && text[at] == '.' && text[at + 1] == '/' {
        lemma_after_dots_bounds(text, at + 2);
    }
}

/// What holds of every excluded path, whatever the globs mean on a host: it is a path
/// below the policy's directory, there are globs, and it is no excluded root that was
/// asked for.
pub open spec fn may_be_excluded_by_policy(
    path: Seq<char>,
    globs: Seq<Seq<char>>,
    roots: Seq<Seq<char>>,
) -> bool {
    &&& path.len() > 0
    &&& path != "."@
    &&& globs.len() > 0
    &&& relative_to_roots(path, roots) matches Some(rest) ==> rest.len() > 0
}

/// Whether a path below the policy's directory is excluded.
pub fn is_excluded_by_policy(
    policy_path: &str,
    is_dir: bool,
    excludes: &PatternSet,
    explicit_excluded_roots: &[String],
) -> (held: bool)
    ensures
        globs::plain(policy_path@) && globs::all_plain(globs::set_globs(*excludes)) ==> held
            == excluded_by_policy(
            policy_path@,
            is_dir,
            globs::set_globs(*excludes),
            strings::texts(explicit_excluded_roots@),
        ),
        // Whatever the globs are, some paths are never excluded.
        held ==> may_be_excluded_by_policy(
            policy_path@,
            globs::set_globs(*excludes),
            strings::texts(explicit_excluded_roots@),
        ),
{
    let matched = matches_exclude_policy(policy_path, is_dir, excludes);
    let relative = relative_to_explicit_excluded_root(policy_path, explicit_excluded_roots);
    proof {
        if globs::plain(policy_path@) {
            lemma_trimmed_is_plain(policy_path@);
            lemma_rest_is_plain(
                paths::trimmed_path(policy_path@),
                strings::texts(explicit_excluded_roots@),
                explicit_excluded_roots@.len(),
            );
            assert(strings::texts(explicit_excluded_roots@).len() == explicit_excluded_roots@.len());
        }
    }
    let relative_matched = match &relative {
        Some(rest) => matches_exclude_policy(rest.as_str(), is_dir, excludes),
        None => false,
    };
    exclusion_holds(policy_path, matched, &relative, relative_matched)
}

/// Whether a path of a scan is excluded: by the built-in rules, which apply below
/// every root, or by the repository's own, which apply below its directory.
pub open spec fn excluded(
    mapper: PolicyMapper,
    path: Seq<char>,
    is_dir: bool,
    builtin: Seq<Seq<char>>,
    repository: Seq<Seq<char>>,
    roots: Seq<Seq<char>>,
) -> bool {
    ||| excluded_by_builtin(mapper.scanned(path), is_dir, builtin)
    ||| excluded_by_repository(mapper, path, is_dir, repository, roots)
}

pub open spec fn excluded_by_builtin(
    scan_path: Seq<char>,
    is_dir: bool,
    builtin: Seq<Seq<char>>,
) -> bool {
    scan_path.len() > 0 && scan_path != "."@ && policy_matches(builtin, scan_path, is_dir)
}

pub open spec fn excluded_by_repository(
    mapper: PolicyMapper,
    path: Seq<char>,
    is_dir: bool,
    repository: Seq<Seq<char>>,
    roots: Seq<Seq<char>>,
) -> bool {
    match mapper.governed(mapper.scanned(path)) {
        Some(policy_path) => excluded_by_policy(policy_path, is_dir, repository, roots),
        None => false,
    }
}

/// What holds of every excluded path of a scan, whatever the globs mean on a host.
pub open spec fn may_be_excluded(
    mapper: PolicyMapper,
    path: Seq<char>,
    builtin: Seq<Seq<char>>,
    repository: Seq<Seq<char>>,
    roots: Seq<Seq<char>>,
) -> bool {
    let scan_path = mapper.scanned(path);
    ||| scan_path.len() > 0 && scan_path != "."@ && builtin.len() > 0
    ||| mapper.governed(scan_path) matches Some(policy_path) && may_be_excluded_by_policy(
        policy_path,
        repository,
        roots,
    )
}

/// Whether the built-in globs mean the same on every host for this path.
pub open spec fn builtin_is_portable(
    mapper: PolicyMapper,
    path: Seq<char>,
    config: ContextConfig,
) -> bool {
    globs::plain(mapper.scanned(path)) && globs::all_plain(
        globs::set_globs(config.builtin_excludes),
    )
}

/// Whether the repository's globs mean the same on every host for this path.
pub open spec fn repository_is_portable(
    mapper: PolicyMapper,
    path: Seq<char>,
    config: ContextConfig,
) -> bool {
    mapper.governed(mapper.scanned(path)) matches Some(policy_path) ==> globs::plain(policy_path)
        && globs::all_plain(globs::set_globs(config.repository_excludes))
}

/// Whether the globs mean the same on every host for this path.
pub open spec fn is_portable(mapper: PolicyMapper, path: Seq<char>, config: ContextConfig) -> bool {
    builtin_is_portable(mapper, path, config) && repository_is_portable(mapper, path, config)
}

/// Whether a path of a scan is excluded.
pub fn is_excluded(
    mapper: &PolicyMapper,
    path: &str,
    is_dir: bool,
    config: &ContextConfig,
    explicit_excluded_roots: &[String],
) -> (held: bool)
    ensures
        is_portable(*mapper, path@, *config) ==> held == excluded(
            *mapper,
            path@,
            is_dir,
            globs::set_globs(config.builtin_excludes),
            globs::set_globs(config.repository_excludes),
            strings::texts(explicit_excluded_roots@),
        ),
        // Either half of the rules is enough.
        builtin_is_portable(*mapper, path@, *config) && excluded_by_builtin(
            mapper.scanned(path@),
            is_dir,
            globs::set_globs(config.builtin_excludes),
        ) ==> held,
        repository_is_portable(*mapper, path@, *config) && excluded_by_repository(
            *mapper,
            path@,
            is_dir,
            globs::set_globs(config.repository_excludes),
            strings::texts(explicit_excluded_roots@),
        ) ==> held,
        // Whatever the globs are, some paths are never excluded.
        held ==> may_be_excluded(
            *mapper,
            path@,
            globs::set_globs(config.builtin_excludes),
            globs::set_globs(config.repository_excludes),
            strings::texts(explicit_excluded_roots@),
        ),
{
    let scan_path = mapper.scan_path(path);
    let none: Option<String> = None;
    let builtin = matches_exclude_policy(scan_path.as_str(), is_dir, &config.builtin_excludes);
    if exclusion_holds(scan_path.as_str(), builtin, &none, false) {
        return true;
    }
    match mapper.policy_path(scan_path.as_str()) {
        Some(policy_path) => is_excluded_by_policy(
            policy_path.as_str(),
            is_dir,
            &config.repository_excludes,
            explicit_excluded_roots,
        ),
        None => false,
    }
}

/// The excluded directories that were asked for, as the repository's rules see
/// them.
pub open spec fn asked_for(
    roots: Seq<ScanRoot>,
    policy_root: Option<Seq<char>>,
    globs: Seq<Seq<char>>,
    host: Host,
    n: nat,
) -> Seq<Seq<char>>
    decreases n,
{
    if n == 0 || n > roots.len() {
        Seq::empty()
    } else {
        let before = asked_for(roots, policy_root, globs, host, (n - 1) as nat);
        match prefix_below(policy_root, strings::text_option(roots[n - 1].canonical)) {
            Some(path) => if path.len() > 0 && path != "."@ && policy_matches(
                globs,
                path,
                roots[n - 1].is_dir,
            ) {
                before.push(path)
            } else {
                before
            },
            None => before,
        }
    }
}

pub open spec fn prefixes_are_plain(roots: Seq<ScanRoot>, policy_root: Option<Seq<char>>) -> bool {
    forall|i: int|
        #![trigger roots[i]]
        0 <= i < roots.len() ==> (prefix_below(
            policy_root,
            strings::text_option(roots[i].canonical),
        ) matches Some(path) ==> globs::plain(path))
}

/// Whether a path is where one of the roots lies below the policy's directory.
pub open spec fn is_asked_for(
    roots: Seq<ScanRoot>,
    policy_root: Option<Seq<char>>,
    path: Seq<char>,
) -> bool {
    &&& path.len() > 0
    &&& path != "."@
    &&& exists|i: int|
        0 <= i < roots.len() && prefix_below(
            policy_root,
            strings::text_option((#[trigger] roots[i]).canonical),
        ) == Some(path)
}

/// The excluded directories that were asked for: what lies in them is not excluded
/// for lying in them.
pub fn explicit_excluded_roots(
    roots: &[ScanRoot],
    config: &ContextConfig,
    with_excluded: bool,
    host: Host,
) -> (explicit: Vec<String>)
    ensures
        with_excluded ==> explicit@.len() == 0,
        !with_excluded && globs::all_plain(globs::set_globs(config.repository_excludes))
            && prefixes_are_plain(roots@, strings::text_option(config.policy_root))
            ==> strings::texts(explicit@) == asked_for(
            roots@,
            strings::text_option(config.policy_root),
            globs::set_globs(config.repository_excludes),
            host,
            roots@.len(),
        ),
        // Whatever the globs are, these are directories that were asked for.
        forall|k: int|
            0 <= k < explicit@.len() ==> is_asked_for(
                roots@,
                strings::text_option(config.policy_root),
                #[trigger] explicit@[k]@,
            ),
        globs::set_globs(config.repository_excludes).len() == 0 ==> explicit@.len() == 0,
{
    let mut explicit: Vec<String> = Vec::new();
    assert(strings::texts(explicit@) =~= Seq::empty());
    if with_excluded {
        return explicit;
    }
    let ghost globs = globs::set_globs(config.repository_excludes);
    let ghost policy_root = strings::text_option(config.policy_root);
    let mut i: usize = 0;
    while i < roots.len()
        invariant
            i <= roots.len(),
            globs == globs::set_globs(config.repository_excludes),
            policy_root == strings::text_option(config.policy_root),
            globs::all_plain(globs) && prefixes_are_plain(roots@, policy_root)
                ==> strings::texts(explicit@) == asked_for(
                roots@,
                policy_root,
                globs,
                host,
                i as nat,
            ),
            forall|k: int|
                0 <= k < explicit@.len() ==> is_asked_for(
                    roots@,
                    policy_root,
                    #[trigger] explicit@[k]@,
                ),
            globs.len() == 0 ==> explicit@.len() == 0,
        decreases roots.len() - i,
    {
        let mapper = PolicyMapper::for_root(&roots[i], &config.policy_root, host);
        if let Some(path) = mapper.policy_prefix {
            let matched = matches_exclude_policy(
                path.as_str(),
                roots[i].is_dir,
                &config.repository_excludes,
            );
            let none: Option<String> = None;
            if exclusion_holds(path.as_str(), matched, &none, false) {
                let ghost before = explicit@;
                let ghost text = path@;
                assert(prefix_below(
                    policy_root,
                    strings::text_option(roots@[i as int].canonical),
                ) == Some(text));
                explicit.push(path);
                assert(strings::texts(explicit@) =~= strings::texts(before).push(text));
                assert forall|k: int| 0 <= k < explicit@.len() implies is_asked_for(
                    roots@,
                    policy_root,
                    #[trigger] explicit@[k]@,
                ) by {
                    if k < before.len() {
                        assert(explicit@[k] == before[k]);
                    }
                }
            }
        }
        i += 1;
    }
    explicit
}

/// What files are to be selected by.
pub struct Selection {
    pub globs: Option<PatternSet>,
    pub path_terms: Vec<String>,
    pub extensions: Vec<String>,
    pub with_excluded: bool,
}

pub open spec fn holds_all_terms(path: Seq<char>, terms: Seq<Seq<char>>) -> bool {
    forall|i: int| 0 <= i < terms.len() ==> strings::contains_text(path, #[trigger] terms[i])
}

pub open spec fn is_among(extension: Seq<char>, extensions: Seq<Seq<char>>) -> bool {
    exists|i: int|
        0 <= i < extensions.len() && strings::same_ignoring_case(extension, #[trigger] extensions[i])
}

pub open spec fn has_extension(extension: Option<Seq<char>>, extensions: Seq<Seq<char>>) -> bool {
    extensions.len() == 0 || (extension is Some && is_among(extension->Some_0, extensions))
}

/// Whether a file is selected, given whether it is excluded, and whether the globs,
/// if there are any, match its path or its name.
pub fn inclusion_holds(
    excluded: bool,
    glob_matched: Option<bool>,
    scan_path: &str,
    extension: &Option<String>,
    selection: &Selection,
) -> (held: bool)
    ensures
        held == (!excluded && glob_matched != Some(false) && holds_all_terms(
            scan_path@,
            strings::texts(selection.path_terms@),
        ) && has_extension(
            strings::text_option(*extension),
            strings::texts(selection.extensions@),
        )),
{
    if excluded {
        return false;
    }
    if let Some(matched) = glob_matched {
        if !matched {
            return false;
        }
    }
    let ghost terms = strings::texts(selection.path_terms@);
    let mut i: usize = 0;
    while i < selection.path_terms.len()
        invariant
            i <= selection.path_terms.len(),
            terms == strings::texts(selection.path_terms@),
            forall|k: int|
                0 <= k < i ==> strings::contains_text(scan_path@, #[trigger] terms[k]),
        decreases selection.path_terms.len() - i,
    {
        assert(terms[i as int] == selection.path_terms@[i as int]@);
        if !contains(scan_path, selection.path_terms[i].as_str()) {
            return false;
        }
        i += 1;
    }
    assert(strings::texts(selection.extensions@).len() == selection.extensions@.len());
    if selection.extensions.len() == 0 {
        return true;
    }
    match extension {
        None => false,
        Some(extension) => is_listed(extension.as_str(), &selection.extensions),
    }
}

fn is_listed(extension: &str, extensions: &[String]) -> (held: bool)
    ensures
        held == is_among(extension@, strings::texts(extensions@)),
{
    let ghost texts = strings::texts(extensions@);
    let mut i: usize = 0;
    while i < extensions.len()
        invariant
            i <= extensions.len(),
            texts == strings::texts(extensions@),
            forall|k: int|
                0 <= k < i ==> !strings::same_ignoring_case(extension@, #[trigger] texts[k]),
        decreases extensions.len() - i,
    {
        assert(texts[i as int] == extensions@[i as int]@);
        if same_text_ignoring_case(extension, extensions[i].as_str()) {
            return true;
        }
        i += 1;
    }
    false
}

/// The name of a file, or nothing.
pub open spec fn name_or_empty(path: Seq<char>, host: Host) -> Seq<char> {
    match paths::name_of(path, host) {
        Some(name) => name,
        None => Seq::empty(),
    }
}

/// Whether a file is selected.
pub open spec fn included(
    mapper: PolicyMapper,
    path: Seq<char>,
    selection: Selection,
    config: ContextConfig,
    roots: Seq<Seq<char>>,
) -> bool {
    let name = name_or_empty(path, mapper.host);
    &&& selection.with_excluded || (name != ".git"@ && !excluded(
        mapper,
        path,
        false,
        globs::set_globs(config.builtin_excludes),
        globs::set_globs(config.repository_excludes),
        roots,
    ))
    &&& fits_globs(mapper, path, selection)
    &&& fits_texts(mapper, path, selection)
}

/// Whether the globs, if there are any, match a file's path or its name.
pub open spec fn fits_globs(mapper: PolicyMapper, path: Seq<char>, selection: Selection) -> bool {
    match selection.globs {
        None => true,
        Some(set) => globs::some_glob_matches(globs::set_globs(set), mapper.scanned(path))
            || globs::some_glob_matches(
            globs::set_globs(set),
            name_or_empty(path, mapper.host),
        ),
    }
}

/// Whether a file's path holds every term, and it has one of the extensions.
pub open spec fn fits_texts(mapper: PolicyMapper, path: Seq<char>, selection: Selection) -> bool {
    &&& holds_all_terms(mapper.scanned(path), strings::texts(selection.path_terms@))
    &&& has_extension(
        paths::path_extension(path, mapper.host),
        strings::texts(selection.extensions@),
    )
}

/// Whether the globs to select by mean the same on every host for this file.
pub open spec fn selection_is_portable(
    mapper: PolicyMapper,
    path: Seq<char>,
    selection: Selection,
) -> bool {
    selection.globs matches Some(set) ==> globs::plain(mapper.scanned(path)) && globs::plain(
        name_or_empty(path, mapper.host),
    ) && globs::all_plain(globs::set_globs(set))
}

/// Whether a file is selected: it is not excluded, the globs match its path or its
/// name, its path holds every term, and it has one of the extensions.
pub fn file_is_included(
    path: &str,
    mapper: &PolicyMapper,
    selection: &Selection,
    config: &ContextConfig,
    explicit_excluded_roots: &[String],
) -> (held: bool)
    ensures
        (selection.with_excluded || is_portable(*mapper, path@, *config)) && selection_is_portable(
            *mapper,
            path@,
            *selection,
        ) ==> held == included(
            *mapper,
            path@,
            *selection,
            *config,
            strings::texts(explicit_excluded_roots@),
        ),
        // Whatever the globs mean on a host, the other conditions hold of every file that
        // is selected, and each of those on globs does where they mean one thing.
        held ==> fits_texts(*mapper, path@, *selection),
        held && !selection.with_excluded ==> name_or_empty(path@, mapper.host) != ".git"@,
        held && !selection.with_excluded && is_portable(*mapper, path@, *config) ==> !excluded(
            *mapper,
            path@,
            false,
            globs::set_globs(config.builtin_excludes),
            globs::set_globs(config.repository_excludes),
            strings::texts(explicit_excluded_roots@),
        ),
        held && selection_is_portable(*mapper, path@, *selection) ==> fits_globs(
            *mapper,
            path@,
            *selection,
        ),
        held ==> (selection.globs matches Some(set) ==> globs::set_globs(set).len() > 0),
        // Where nothing can exclude the file and no globs select, it is selected for the
        // rest alone.
        selection.globs is None && fits_texts(*mapper, path@, *selection) && (
        selection.with_excluded || (name_or_empty(path@, mapper.host) != ".git"@
            && !may_be_excluded(
            *mapper,
            path@,
            globs::set_globs(config.builtin_excludes),
            globs::set_globs(config.repository_excludes),
            strings::texts(explicit_excluded_roots@),
        ))) ==> held,
{
    let scan_path = mapper.scan_path(path);
    let name = match file_name(path, mapper.host) {
        Some(name) => name,
        None => String::new(),
    };
    assert(name@ =~= name_or_empty(path@, mapper.host));
    let excluded = !selection.with_excluded && (same_text(name.as_str(), ".git") || is_excluded(
        mapper,
        path,
        false,
        config,
        explicit_excluded_roots,
    ));
    let glob_matched = match &selection.globs {
        None => None,
        Some(set) => Some(
            set.is_match(scan_path.as_str()) || set.is_match(name.as_str()),
        ),
    };
    let extension = file_extension(path, mapper.host);
    inclusion_holds(excluded, glob_matched, scan_path.as_str(), &extension, selection)
}

/// The globs to select files by, if any are given.
pub fn build_optional_globset(patterns: &[String]) -> (built: Result<
    Option<PatternSet>,
    GlobFault,
>)
    ensures
        patterns@.len() == 0 ==> (built matches Ok(None)),
        patterns@.len() > 0 ==> match built {
            Ok(set) => {
                &&& set is Some
                &&& globs::set_globs(set->Some_0) == strings::texts(patterns@)
                &&& globs::all_plain(strings::texts(patterns@)) ==> globs::first_bad(
                    strings::texts(patterns@),
                    0,
                ) is None
            },
            Err(GlobFault::Pattern { pattern, detail }) => {
                &&& strings::texts(patterns@).contains(pattern@)
                &&& globs::all_plain(strings::texts(patterns@)) ==> globs::first_bad(
                    strings::texts(patterns@),
                    0,
                ) == Some((pattern@, detail@))
            },
            Err(GlobFault::Compile { detail }) => globs::all_plain(strings::texts(patterns@))
                ==> globs::first_bad(strings::texts(patterns@), 0) is None,
        },
{
    if patterns.len() == 0 {
        return Ok(None);
    }
    match build_globset(patterns) {
        Ok(set) => Ok(Some(set)),
        Err(fault) => Err(fault),
    }
}

/// A term as it is looked for in a path.
pub open spec fn path_term(term: Seq<char>, host: Host) -> Seq<char> {
    paths::portable(strings::trim(term), host)
}

pub open spec fn path_terms(terms: Seq<Seq<char>>, host: Host) -> Seq<Seq<char>> {
    terms.map_values(|term: Seq<char>| path_term(term, host))
}

/// The terms to look for in paths; none of them may be blank.
pub fn normalize_path_terms(terms: &[String], host: Host) -> (normalized: Result<
    Vec<String>,
    &'static str,
>)
    ensures
        match normalized {
            Ok(normalized) => {
                &&& strings::texts(normalized@) == path_terms(strings::texts(terms@), host)
                &&& forall|i: int|
                    0 <= i < terms@.len() ==> path_term(
                        #[trigger] strings::texts(terms@)[i],
                        host,
                    ).len() > 0
            },
            Err(message) => {
                &&& message@ == "files --path-contains entries must not be empty"@
                &&& exists|i: int|
                    0 <= i < terms@.len() && path_term(
                        #[trigger] strings::texts(terms@)[i],
                        host,
                    ).len() == 0
            },
        },
{
    let ghost texts = strings::texts(terms@);
    let ghost wanted = path_terms(texts, host);
    let mut normalized: Vec<String> = Vec::new();
    let mut i: usize = 0;
    assert(strings::texts(normalized@) =~= wanted.take(0));
    while i < terms.len()
        invariant
            i <= terms.len(),
            texts == strings::texts(terms@),
            wanted == path_terms(texts, host),
            strings::texts(normalized@) == wanted.take(i as int),
            forall|k: int| 0 <= k < i ==> path_term(#[trigger] texts[k], host).len() > 0,
        decreases terms.len() - i,
    {
        assert(texts[i as int] == terms@[i as int]@);
        let term = normalize_user_path_fragment(trim_of(terms[i].as_str()).as_str(), host);
        assert(term@ == path_term(texts[i as int], host));
        if term.as_str().is_empty() {
            return Err("files --path-contains entries must not be empty");
        }
        push_text(&mut normalized, term);
        assert(wanted.take(i + 1) =~= wanted.take(i as int).push(wanted[i as int]));
        i += 1;
    }
    assert(wanted.take(i as int) =~= wanted);
    Ok(normalized)
}

/// An extension without dots in front, in lower case.
pub open spec fn bare_extension(part: Seq<char>) -> Seq<char> {
    strings::lower_text(strings::trim_start(strings::trim(part), CharClass::Only('.')))
}

/// The extensions among the first `n` parts: those that are not blank.
pub open spec fn extensions_in(parts: Seq<Seq<char>>, n: nat) -> Seq<Seq<char>>
    decreases n,
{
    if n == 0 || n > parts.len() {
        Seq::empty()
    } else {
        let before = extensions_in(parts, (n - 1) as nat);
        if bare_extension(parts[n - 1]).len() == 0 {
            before
        } else {
            before.push(bare_extension(parts[n - 1]))
        }
    }
}

/// The extensions in the first `n` lists, which commas separate.
pub open spec fn extension_lists(lists: Seq<Seq<char>>, n: nat) -> Seq<Seq<char>>
    decreases n,
{
    if n == 0 || n > lists.len() {
        Seq::empty()
    } else {
        let parts = strings::parts_of(lists[n - 1], CharClass::Only(','));
        extension_lists(lists, (n - 1) as nat) + extensions_in(parts, parts.len())
    }
}

/// The extensions that are asked for.
pub fn normalize_extensions(lists: &[String]) -> (extensions: Vec<String>)
    ensures
        strings::texts(extensions@) == extension_lists(strings::texts(lists@), lists@.len()),
{
    let ghost texts = strings::texts(lists@);
    let mut extensions: Vec<String> = Vec::new();
    let mut i: usize = 0;
    assert(strings::texts(extensions@) =~= Seq::empty());
    while i < lists.len()
        invariant
            i <= lists.len(),
            texts == strings::texts(lists@),
            strings::texts(extensions@) == extension_lists(texts, i as nat),
        decreases lists.len() - i,
    {
        assert(texts[i as int] == lists@[i as int]@);
        let parts = split_text(lists[i].as_str(), CharClass::Only(','));
        let ghost pieces = strings::texts(parts@);
        let ghost before = strings::texts(extensions@);
        let mut k: usize = 0;
        assert(before + extensions_in(pieces, 0) =~= before);
        while k < parts.len()
            invariant
                k <= parts.len(),
                pieces == strings::texts(parts@),
                strings::texts(extensions@) == before + extensions_in(pieces, k as nat),
            decreases parts.len() - k,
        {
            assert(pieces[k as int] == parts@[k as int]@);
            let chars = chars_of(trim_of(parts[k].as_str()).as_str());
            let bare = string_of(&strings::trim_start_of(&chars, CharClass::Only('.')));
            let lowered = to_lower(bare.as_str());
            if !lowered.as_str().is_empty() {
                push_text(&mut extensions, lowered);
            }
            assert(strings::texts(extensions@) =~= before + extensions_in(pieces, (k + 1) as nat));
            k += 1;
        }
        i += 1;
    }
    extensions
}

/// What a walk does with a directory.
#[derive(Debug, Clone, Copy, PartialEq, Eq, Structural)]
pub enum DirectoryVisit {
    Skip,
    /// It is the root of another repository, which is to be disclosed.
    EnterRepository,
    Enter,
}

/// What a walk does with a directory at a depth below its root.
pub open spec fn visit_of(depth: nat, has_git: bool, skip_nested_repos: bool) -> DirectoryVisit {
    if depth > 0 && has_git {
        if skip_nested_repos {
            DirectoryVisit::Skip
        } else {
            DirectoryVisit::EnterRepository
        }
    } else {
        DirectoryVisit::Enter
    }
}

/// A root that was asked for is always entered, and so is a directory that is no
/// repository; another repository is entered if and only if it is not to be skipped, and
/// is then disclosed.
pub proof fn only_nested_repositories_are_skipped(
    depth: nat,
    has_git: bool,
    skip_nested_repos: bool,
)
    ensures
        visit_of(0, has_git, skip_nested_repos) == DirectoryVisit::Enter,
        visit_of(depth, false, skip_nested_repos) == DirectoryVisit::Enter,
        visit_of(depth + 1, true, true) == DirectoryVisit::Skip,
        visit_of(depth + 1, true, false) == DirectoryVisit::EnterRepository,
{
}

/// What a walk does with a directory at a depth below its root. A root that was
/// asked for is never another repository.
pub fn visit_directory(depth: usize, has_git: bool, skip_nested_repos: bool) -> (visit:
    DirectoryVisit)
    ensures
        visit == visit_of(depth as nat, has_git, skip_nested_repos),
{
    if depth > 0 && has_git {
        if skip_nested_repos {
            DirectoryVisit::Skip
        } else {
            DirectoryVisit::EnterRepository
        }
    } else {
        DirectoryVisit::Enter
    }
}

/// How many levels below a directory that a walk has left out are searched for a
/// repository.
pub const NESTED_REPO_PROBE_DEPTH: usize = 1;

/// How many repositories may lie in each other.
pub const NESTED_REPO_MAX_RECURSION: usize = 4;

/// Whether repositories that Git ignores are searched for at this depth of nesting.
pub fn probes_ignored_repos(with_git_ignored: bool, skip_nested_repos: bool, nesting: usize) -> (held:
    bool)
    ensures
        held == (!with_git_ignored && !skip_nested_repos && nesting < NESTED_REPO_MAX_RECURSION),
{
    !with_git_ignored && !skip_nested_repos && nesting < NESTED_REPO_MAX_RECURSION
}

/// What the search for ignored repositories does with a directory.
#[derive(Debug, Clone, Copy, PartialEq, Eq, Structural)]
pub enum ProbeVisit {
    Ignore,
    Repository,
    Descend,
}

/// What the search for ignored repositories does with a directory.
pub open spec fn probe_of(
    visited: bool,
    name: Seq<char>,
    excluded: bool,
    has_git: bool,
    remaining_depth: nat,
) -> ProbeVisit {
    if visited || name == ".git"@ || excluded {
        ProbeVisit::Ignore
    } else if has_git {
        ProbeVisit::Repository
    } else if remaining_depth > 0 {
        ProbeVisit::Descend
    } else {
        ProbeVisit::Ignore
    }
}

/// A directory that the walk visited, an excluded one and that of Git itself are left
/// alone; of the others each repository is found at whatever depth, and the rest are
/// searched as long as there is depth left.
pub proof fn probes_find_every_repository(
    name: Seq<char>,
    has_git: bool,
    depth: nat,
    visited: bool,
    excluded: bool,
)
    ensures
        visited || excluded || name == ".git"@ ==> probe_of(visited, name, excluded, has_git, depth)
            == ProbeVisit::Ignore,
        name != ".git"@ ==> probe_of(false, name, false, true, depth) == ProbeVisit::Repository,
        name != ".git"@ ==> probe_of(false, name, false, false, depth + 1) == ProbeVisit::Descend,
        probe_of(visited, name, excluded, false, 0) == ProbeVisit::Ignore,
{
}

/// What the search for ignored repositories does with a directory that the walk may
/// have visited.
pub fn probe_directory(
    visited: bool,
    name: &str,
    excluded: bool,
    has_git: bool,
    remaining_depth: usize,
) -> (visit: ProbeVisit)
    ensures
        visit == probe_of(visited, name@, excluded, has_git, remaining_depth as nat),
{
    if visited || same_text(name, ".git") || excluded {
        ProbeVisit::Ignore
    } else if has_git {
        ProbeVisit::Repository
    } else if remaining_depth > 0 {
        ProbeVisit::Descend
    } else {
        ProbeVisit::Ignore
    }
}

/// A file that a walk has found: its path, and what tells it from other files
/// however they are spelled.
#[derive(Debug, Clone)]
pub struct FoundFile {
    pub path: String,
    pub device: u64,
    pub index: u64,
}

/// The model of a file that a walk has found.
#[verifier::ext_equal]
pub struct Found {
    pub path: Seq<char>,
    pub device: nat,
    pub index: nat,
}

impl View for FoundFile {
    type V = Found;

    open spec fn view(&self) -> Found {
        Found { path: self.path@, device: self.device as nat, index: self.index as nat }
    }
}

pub open spec fn found_models(files: Seq<FoundFile>) -> Seq<Found> {
    files.map_values(|file: FoundFile| file@)
}

pub open spec fn same_file(a: Found, b: Found) -> bool {
    a.device == b.device && a.index == b.index
}

/// Where a file belongs behind the files that do not sort after it.
pub open spec fn place_after(files: Seq<Found>, file: Found, host: Host, n: int) -> int
    decreases n,
{
    if n <= 0 || n > files.len() {
        0
    } else if ordering::is_before(
        paths::path_key(file.path, host),
        paths::path_key(files[n - 1].path, host),
    ) {
        place_after(files, file, host, n - 1)
    } else {
        n
    }
}

/// The first `n` files, sorted by path; files that sort alike stay in their order.
pub open spec fn sorted_files(files: Seq<Found>, host: Host, n: nat) -> Seq<Found>
    decreases n,
{
    if n == 0 || n > files.len() {
        Seq::empty()
    } else {
        let before = sorted_files(files, host, (n - 1) as nat);
        let file = files[n - 1];
        before.insert(place_after(before, file, host, before.len() as int), file)
    }
}

pub open spec fn knows_file(files: Seq<Found>, file: Found) -> bool {
    exists|i: int| 0 <= i < files.len() && same_file(#[trigger] files[i], file)
}

/// The first of the first `n` spellings of each file.
pub open spec fn first_spellings(files: Seq<Found>, n: nat) -> Seq<Found>
    decreases n,
{
    if n == 0 || n > files.len() {
        Seq::empty()
    } else {
        let before = first_spellings(files, (n - 1) as nat);
        if knows_file(before, files[n - 1]) {
            before
        } else {
            before.push(files[n - 1])
        }
    }
}

/// Every file once, under the spelling that sorts first, sorted by path.
pub open spec fn distinct_files(files: Seq<Found>, host: Host) -> Seq<Found> {
    first_spellings(sorted_files(files, host, files.len()), files.len())
}

/// The files that a scan has selected.
#[derive(Debug)]
pub struct CollectedFiles {
    /// The files, sorted, up to the bound.
    pub files: Vec<String>,
    /// How many there are; the bound does not touch this.
    pub total_seen: usize,
    pub selection_capped: bool,
    pub nested_repos_entered: Vec<String>,
}

pub open spec fn paths_of(files: Seq<Found>) -> Seq<Seq<char>> {
    files.map_values(|file: Found| file.path)
}

proof fn lemma_place_bounds(files: Seq<Found>, file: Found, host: Host, n: int)
    requires
        0 <= n <= files.len(),
    ensures
        0 <= place_after(files, file, host, n) <= n,
    decreases n,
{
    if n > 0 {
        lemma_place_bounds(files, file, host, n - 1);
    }
}

pub proof fn lemma_sorted_len(files: Seq<Found>, host: Host, n: nat)
    requires
        n <= files.len(),
    ensures
        sorted_files(files, host, n).len() == n,
    decreases n,
{
    if n > 0 {
        lemma_sorted_len(files, host, (n - 1) as nat);
        let before = sorted_files(files, host, (n - 1) as nat);
        lemma_place_bounds(before, files[n - 1], host, before.len() as int);
    }
}

fn sort_files(files: &[FoundFile], host: Host) -> (sorted: Vec<FoundFile>)
    ensures
        found_models(sorted@) == sorted_files(found_models(files@), host, files@.len()),
{
    let ghost models = found_models(files@);
    let mut sorted: Vec<FoundFile> = Vec::new();
    let mut keys: Vec<String> = Vec::new();
    let mut i: usize = 0;
    assert(found_models(sorted@) =~= Seq::empty());
    while i < files.len()
        invariant
            i <= files.len(),
            models == found_models(files@),
            found_models(sorted@) == sorted_files(models, host, i as nat),
            keys@.len() == sorted@.len(),
            forall|k: int|
                0 <= k < sorted@.len() ==> #[trigger] keys@[k]@ == paths::path_key(
                    sorted@[k].path@,
                    host,
                ),
        decreases files.len() - i,
    {
        assert(models[i as int] == files@[i as int]@);
        let ghost before = found_models(sorted@);
        let key = sort_key(files[i].path.as_str(), host);
        let mut at: usize = sorted.len();
        while at > 0 && stands_before(key.as_str(), keys[at - 1].as_str())
            invariant
                at <= sorted.len(),
                i < files.len(),
                before == found_models(sorted@),
                key@ == paths::path_key(files@[i as int].path@, host),
                keys@.len() == sorted@.len(),
                forall|k: int|
                    0 <= k < sorted@.len() ==> #[trigger] keys@[k]@ == paths::path_key(
                        sorted@[k].path@,
                        host,
                    ),
                place_after(before, files@[i as int]@, host, at as int) == place_after(
                    before,
                    files@[i as int]@,
                    host,
                    before.len() as int,
                ),
            decreases at,
        {
            assert(before[at - 1] == sorted@[at - 1]@);
            assert(keys@[at - 1]@ == paths::path_key(sorted@[at - 1].path@, host));
            at -= 1;
        }
        if at > 0 {
            assert(before[at - 1] == sorted@[at - 1]@);
            assert(keys@[at - 1]@ == paths::path_key(sorted@[at - 1].path@, host));
        }
        let file = FoundFile {
            path: files[i].path.clone(),
            device: files[i].device,
            index: files[i].index,
        };
        sorted.insert(at, file);
        keys.insert(at, key);
        assert(found_models(sorted@) =~= before.insert(at as int, files@[i as int]@));
        i += 1;
    }
    sorted
}

/// What tells a file from others, as one number.
pub open spec fn file_key(file: Found) -> nat {
    file.device * 0x1_0000_0000_0000_0000 + file.index
}

pub(crate) fn number_of(file: &FoundFile) -> (key: u128)
    ensures
        key == file_key(file@),
{
    file.device as u128 * 0x1_0000_0000_0000_0000 + file.index as u128
}

/// What tells files from others, as numbers.
pub open spec fn file_keys(files: Seq<Found>) -> Set<u128>
    decreases files.len(),
{
    if files.len() == 0 {
        Set::empty()
    } else {
        file_keys(files.drop_last()).insert(file_key(files.last()) as u128)
    }
}

pub open spec fn keys_fit(files: Seq<Found>) -> bool {
    forall|i: int|
        0 <= i < files.len() ==> (#[trigger] files[i]).device <= u64::MAX && files[i].index
            <= u64::MAX
}

proof fn lemma_keys_tell(files: Seq<Found>, file: Found)
    requires
        keys_fit(files),
        file.device <= u64::MAX,
        file.index <= u64::MAX,
    ensures
        file_keys(files).contains(file_key(file) as u128) == knows_file(files, file),
    decreases files.len(),
{
    if files.len() > 0 {
        let fewer = files.drop_last();
        assert forall|i: int| 0 <= i < fewer.len() implies (#[trigger] fewer[i]).device <= u64::MAX
            && fewer[i].index <= u64::MAX by {
            assert(fewer[i] == files[i]);
        }
        lemma_keys_tell(fewer, file);
        let last = files.last();
        assert(last == files[files.len() - 1]);
        assert(file_key(last) == file_key(file) <==> same_file(last, file));
        if knows_file(fewer, file) {
            let i = choose|i: int| 0 <= i < fewer.len() && same_file(#[trigger] fewer[i], file);
            assert(same_file(files[i], file));
        }
        if knows_file(files, file) && !same_file(last, file) {
            let i = choose|i: int| 0 <= i < files.len() && same_file(#[trigger] files[i], file);
            assert(same_file(fewer[i], file));
        }
    }
}

/// Every file once, under the spelling that sorts first, sorted by path.
pub fn distinct_found(files: &[FoundFile], host: Host) -> (kept: Vec<FoundFile>)
    ensures
        found_models(kept@) == distinct_files(found_models(files@), host),
{
    broadcast use vstd::std_specs::hash::group_hash_axioms;

    let sorted = sort_files(files, host);
    let ghost models = found_models(sorted@);
    proof {
        lemma_sorted_len(found_models(files@), host, files@.len());
        assert(models.len() == sorted@.len());
    }
    let mut kept: Vec<FoundFile> = Vec::new();
    let mut seen: HashSet<u128> = HashSet::new();
    let mut i: usize = 0;
    assert(found_models(kept@) =~= Seq::empty());
    assert(seen@ =~= Set::empty());
    while i < sorted.len()
        invariant
            i <= sorted.len(),
            models == found_models(sorted@),
            found_models(kept@) == first_spellings(models, i as nat),
            seen@ == file_keys(found_models(kept@)),
            keys_fit(found_models(kept@)),
        decreases sorted.len() - i,
    {
        assert(models[i as int] == sorted@[i as int]@);
        let ghost before = found_models(kept@);
        proof {
            lemma_keys_tell(before, models[i as int]);
        }
        let key = number_of(&sorted[i]);
        if !seen.contains(&key) {
            let file = FoundFile {
                path: sorted[i].path.clone(),
                device: sorted[i].device,
                index: sorted[i].index,
            };
            kept.push(file);
            seen.insert(key);
            assert(found_models(kept@) =~= before.push(models[i as int]));
            assert(found_models(kept@).drop_last() =~= before);
        }
        i += 1;
    }
    kept
}

/// Sorts what a walk has found, keeps every file once and bounds the list. Neither
/// the order of the walk nor the spelling of the roots decides what is kept.
pub fn collect_files(files: &[FoundFile], max_selected_files: usize, nested_repos: &[String], host: Host) -> (collected:
    CollectedFiles)
    ensures
        ({
            let all = distinct_files(found_models(files@), host);
            &&& collected.total_seen == all.len()
            &&& collected.selection_capped == (all.len() > max_selected_files)
            &&& strings::texts(collected.files@) == paths_of(all).take(
                if all.len() > max_selected_files {
                    max_selected_files as int
                } else {
                    all.len() as int
                },
            )
        }),
        strings::texts(collected.nested_repos_entered@) == ordering::sorted_set(
            strings::texts(nested_repos@),
            nested_repos@.len(),
        ),
{
    let kept = distinct_found(files, host);
    let ghost all = found_models(kept@);
    let total_seen = kept.len();
    let selection_capped = total_seen > max_selected_files;
    let bound: usize = if selection_capped {
        max_selected_files
    } else {
        total_seen
    };
    let ghost wanted = paths_of(all);
    let mut list: Vec<String> = Vec::new();
    let mut k: usize = 0;
    assert(strings::texts(list@) =~= wanted.take(0));
    while k < bound
        invariant
            k <= bound <= kept.len(),
            all == found_models(kept@),
            wanted == paths_of(all),
            strings::texts(list@) == wanted.take(k as int),
        decreases bound - k,
    {
        assert(all[k as int] == kept@[k as int]@);
        push_text(&mut list, kept[k].path.clone());
        assert(wanted.take(k + 1) =~= wanted.take(k as int).push(wanted[k as int]));
        k += 1;
    }
    let nested_repos_entered = ordering::sort_texts(nested_repos);
    CollectedFiles { files: list, total_seen, selection_capped, nested_repos_entered }
}

pub open spec fn key_of(file: Found, host: Host) -> Seq<char> {
    paths::path_key(file.path, host)
}

/// No file stands before one that sorts ahead of it.
pub open spec fn in_order(files: Seq<Found>, host: Host) -> bool {
    forall|i: int, j: int|
        0 <= i < j < files.len() ==> !ordering::is_before(
            key_of(#[trigger] files[j], host),
            key_of(#[trigger] files[i], host),
        )
}

proof fn lemma_place_splits(files: Seq<Found>, file: Found, host: Host, n: int)
    requires
        0 <= n <= files.len(),
        in_order(files, host),
    ensures
        ({
            let at = place_after(files, file, host, n);
            &&& 0 <= at <= n
            &&& forall|k: int|
                at <= k < n ==> ordering::is_before(
                    key_of(file, host),
                    key_of(#[trigger] files[k], host),
                )
            &&& forall|k: int|
                0 <= k < at ==> !ordering::is_before(
                    key_of(file, host),
                    key_of(#[trigger] files[k], host),
                )
        }),
    decreases n,
{
    if n > 0 {
        if ordering::is_before(key_of(file, host), key_of(files[n - 1], host)) {
            lemma_place_splits(files, file, host, n - 1);
        } else {
            assert forall|k: int| 0 <= k < n implies !ordering::is_before(
                key_of(file, host),
                key_of(#[trigger] files[k], host),
            ) by {
                // The last of them sorts no earlier than this one.
                lemma_not_before(
                    key_of(files[k], host),
                    key_of(files[n - 1], host),
                    key_of(file, host),
                );
                if k < n - 1 {
                    assert(!ordering::is_before(
                        key_of(files[n - 1], host),
                        key_of(files[k], host),
                    ));
                }
            }
        }
    }
}

/// Not to stand before is transitive.
proof fn lemma_not_before(a: Seq<char>, b: Seq<char>, c: Seq<char>)
    requires
        !ordering::is_before(c, b),
    ensures
        !ordering::is_before(b, a) ==> !ordering::is_before(c, a),
{
    if !ordering::is_before(b, a) && ordering::is_before(c, a) {
        ordering::lemma_order(c, a, b);
        ordering::lemma_order(a, b, c);
        ordering::lemma_order(b, c, a);
    }
}

/// Sorting keeps the files as they are and puts them in order.
pub proof fn lemma_sorted_files(files: Seq<Found>, host: Host, n: nat)
    requires
        n <= files.len(),
    ensures
        in_order(sorted_files(files, host, n), host),
        sorted_files(files, host, n).to_multiset() == files.take(n as int).to_multiset(),
    decreases n,
{
    broadcast use vstd::seq_lib::group_to_multiset_ensures;

    if n > 0 {
        lemma_sorted_files(files, host, (n - 1) as nat);
        let before = sorted_files(files, host, (n - 1) as nat);
        let file = files[n - 1];
        let at = place_after(before, file, host, before.len() as int);
        lemma_place_splits(before, file, host, before.len() as int);
        let after = sorted_files(files, host, n);
        assert(files.take(n as int) =~= files.take(n - 1).push(file));
        vstd::seq_lib::to_multiset_insert(before, at, file);
        assert forall|i: int, j: int| 0 <= i < j < after.len() implies !ordering::is_before(
            key_of(#[trigger] after[j], host),
            key_of(#[trigger] after[i], host),
        ) by {
            let a = if i < at { i } else { i - 1 };
            let b = if j < at { j } else { j - 1 };
            if i != at {
                assert(after[i] == before[a]);
            }
            if j != at {
                assert(after[j] == before[b]);
            }
            if i == at {
                ordering::lemma_order(key_of(file, host), key_of(after[j], host), Seq::empty());
            }
        }
    } else {
        assert(files.take(0) =~= Seq::empty());
    }
}

pub open spec fn keys_differ(files: Seq<Found>, host: Host) -> bool {
    forall|i: int, j: int|
        0 <= i < j < files.len() ==> key_of(#[trigger] files[i], host) != key_of(
            #[trigger] files[j],
            host,
        )
}

/// Two orderly lists of the same files are the same list.
proof fn lemma_order_is_unique(a: Seq<Found>, b: Seq<Found>, host: Host)
    requires
        in_order(a, host),
        in_order(b, host),
        keys_differ(a, host),
        keys_differ(b, host),
        a.to_multiset() == b.to_multiset(),
    ensures
        a == b,
    decreases a.len(),
{
    broadcast use vstd::seq_lib::group_to_multiset_ensures;

    assert(a.len() == a.to_multiset().len());
    assert(b.len() == b.to_multiset().len());
    if a.len() == 0 {
        assert(a =~= b);
    } else {
        let n = a.len() as int;
        let x = a[n - 1];
        let y = b[n - 1];
        assert(b.contains(x)) by {
            assert(a.contains(x));
            assert(a.to_multiset().count(x) > 0);
            assert(b.to_multiset().count(x) > 0);
        }
        assert(a.contains(y)) by {
            assert(b.contains(y));
            assert(b.to_multiset().count(y) > 0);
            assert(a.to_multiset().count(y) > 0);
        }
        let i = choose|i: int| 0 <= i < b.len() && b[i] == x;
        let j = choose|j: int| 0 <= j < a.len() && a[j] == y;
        if x != y {
            assert(!ordering::is_before(key_of(b[n - 1], host), key_of(b[i], host)));
            assert(!ordering::is_before(key_of(a[n - 1], host), key_of(a[j], host)));
            ordering::lemma_order(key_of(x, host), key_of(y, host), Seq::empty());
            assert(key_of(b[i], host) != key_of(b[n - 1], host));
        }
        let fewer_a = a.remove(n - 1);
        let fewer_b = b.remove(n - 1);
        assert(fewer_a =~= a.take(n - 1));
        assert(fewer_b =~= b.take(n - 1));
        lemma_order_is_unique(fewer_a, fewer_b, host);
        assert(a =~= fewer_a.push(x));
        assert(b =~= fewer_b.push(y));
    }
}

/// What a scan selects does not depend on the order in which the walk came upon the
/// files, as long as no two of them are spelled alike.
pub proof fn selection_ignores_walk_order(a: Seq<Found>, b: Seq<Found>, host: Host)
    requires
        a.to_multiset() == b.to_multiset(),
        keys_differ(a, host),
    ensures
        distinct_files(a, host) == distinct_files(b, host),
{
    broadcast use vstd::seq_lib::group_to_multiset_ensures;

    assert(a.len() == a.to_multiset().len());
    assert(b.len() == b.to_multiset().len());
    lemma_sorted_files(a, host, a.len());
    lemma_sorted_files(b, host, b.len());
    assert(a.take(a.len() as int) =~= a);
    assert(b.take(b.len() as int) =~= b);
    let x = sorted_files(a, host, a.len());
    let y = sorted_files(b, host, b.len());
    lemma_keys_still_differ(a, x, host);
    lemma_keys_still_differ(a, y, host);
    lemma_order_is_unique(x, y, host);
}

proof fn lemma_keys_still_differ(a: Seq<Found>, b: Seq<Found>, host: Host)
    requires
        a.to_multiset() == b.to_multiset(),
        keys_differ(a, host),
    ensures
        keys_differ(b, host),
{
    broadcast use vstd::seq_lib::group_to_multiset_ensures;

    assert forall|i: int, j: int| 0 <= i < j < b.len() implies key_of(#[trigger] b[i], host)
        != key_of(#[trigger] b[j], host) by {
        let x = b[i];
        let y = b[j];
        assert(a.contains(x)) by {
            assert(b.contains(x));
            assert(b.to_multiset().count(x) > 0);
        }
        assert(a.contains(y)) by {
            assert(b.contains(y));
            assert(b.to_multiset().count(y) > 0);
        }
        let k = choose|k: int| 0 <= k < a.len() && a[k] == x;
        let l = choose|l: int| 0 <= l < a.len() && a[l] == y;
        if x == y {
            assert(a.no_duplicates()) by {
                assert forall|p: int, q: int| 0 <= p < a.len() && 0 <= q < a.len() && p
                    != q implies a[p] != a[q] by {
                    if p < q {
                        assert(key_of(a[p], host) != key_of(a[q], host));
                    } else {
                        assert(key_of(a[q], host) != key_of(a[p], host));
                    }
                }
            }
            a.lemma_multiset_has_no_duplicates();
            assert(b.to_multiset().count(x) == 1);
            b.lemma_multiset_has_no_duplicates_conv();
            assert(false);
        } else if k < l {
            assert(key_of(a[k], host) != key_of(a[l], host));
        } else {
            assert(key_of(a[l], host) != key_of(a[k], host));
        }
    }
}

proof fn lemma_first_spellings(files: Seq<Found>, n: nat)
    requires
        n <= files.len(),
    ensures
        ({
            let kept = first_spellings(files, n);
            &&& forall|i: int, j: int|
                0 <= i < j < kept.len() ==> !same_file(#[trigger] kept[i], #[trigger] kept[j])
            &&& forall|i: int| 0 <= i < n ==> knows_file(kept, #[trigger] files[i])
            &&& forall|i: int| 0 <= i < kept.len() ==> files.contains(#[trigger] kept[i])
        }),
    decreases n,
{
    if n > 0 {
        lemma_first_spellings(files, (n - 1) as nat);
        let before = first_spellings(files, (n - 1) as nat);
        let kept = first_spellings(files, n);
        assert forall|i: int| 0 <= i < n implies knows_file(kept, #[trigger] files[i]) by {
            if i < n - 1 {
                assert(knows_file(before, files[i]));
                let k = choose|k: int|
                    0 <= k < before.len() && same_file(#[trigger] before[k], files[i]);
                assert(kept[k] == before[k]);
            } else if !knows_file(before, files[i]) {
                assert(same_file(kept[kept.len() - 1], files[i]));
            }
        }
        assert forall|i: int, j: int| 0 <= i < j < kept.len() implies !same_file(
            #[trigger] kept[i],
            #[trigger] kept[j],
        ) by {
            if j == before.len() {
                assert(kept[i] == before[i]);
                assert(kept[j] == files[n - 1]);
            }
        }
    }
}

/// However often and however spelled a file was come upon, it is kept once; none
/// is lost, and none is made up.
pub proof fn every_file_is_kept_once(files: Seq<Found>, host: Host)
    ensures
        ({
            let kept = distinct_files(files, host);
            &&& forall|i: int, j: int|
                0 <= i < j < kept.len() ==> !same_file(#[trigger] kept[i], #[trigger] kept[j])
            &&& forall|i: int| 0 <= i < files.len() ==> knows_file(kept, #[trigger] files[i])
            &&& forall|i: int| 0 <= i < kept.len() ==> files.contains(#[trigger] kept[i])
        }),
{
    broadcast use vstd::seq_lib::group_to_multiset_ensures;

    let sorted = sorted_files(files, host, files.len());
    lemma_sorted_files(files, host, files.len());
    lemma_sorted_len(files, host, files.len());
    assert(files.take(files.len() as int) =~= files);
    lemma_first_spellings(sorted, files.len());
    let kept = distinct_files(files, host);
    assert forall|i: int| 0 <= i < files.len() implies knows_file(kept, #[trigger] files[i]) by {
        assert(files.contains(files[i]));
        assert(files.to_multiset().count(files[i]) > 0);
        assert(sorted.to_multiset().count(files[i]) > 0);
        assert(sorted.contains(files[i]));
        let k = choose|k: int| 0 <= k < sorted.len() && sorted[k] == files[i];
        assert(knows_file(kept, sorted[k]));
    }
    assert forall|i: int| 0 <= i < kept.len() implies files.contains(#[trigger] kept[i]) by {
        assert(sorted.contains(kept[i]));
        assert(sorted.to_multiset().count(kept[i]) > 0);
        assert(files.to_multiset().count(kept[i]) > 0);
    }
}

/// A selected file's path holds every single term that paths are to hold.
pub proof fn selected_paths_hold_each_term(
    mapper: PolicyMapper,
    path: Seq<char>,
    selection: Selection,
    i: int,
)
    requires
        fits_texts(mapper, path, selection),
        0 <= i < selection.path_terms@.len(),
    ensures
        exists|before: Seq<char>, behind: Seq<char>|
            mapper.scanned(path) == #[trigger] (before + selection.path_terms@[i]@ + behind),
{
    let terms = strings::texts(selection.path_terms@);
    assert(terms[i] == selection.path_terms@[i]@);
    strings::holding_is_a_split(mapper.scanned(path), terms[i]);
}

/// A path holds the terms of two lists together if and only if it holds those of each
/// of them: a further term never adds a file, and no term at all leaves none out.
pub proof fn terms_narrow(path: Seq<char>, first: Seq<Seq<char>>, second: Seq<Seq<char>>)
    ensures
        holds_all_terms(path, first + second) == (holds_all_terms(path, first) && holds_all_terms(
            path,
            second,
        )),
        holds_all_terms(path, Seq::empty()),
        forall|term: Seq<char>|
            holds_all_terms(path, seq![term]) == #[trigger] strings::contains_text(path, term),
{
    let both = first + second;
    assert forall|i: int| 0 <= i < both.len() implies #[trigger] both[i] == if i < first.len() {
        first[i]
    } else {
        second[i - first.len()]
    } by {}
    assert forall|i: int| 0 <= i < first.len() implies #[trigger] first[i] == both[i] by {}
    assert forall|i: int| 0 <= i < second.len() implies #[trigger] second[i] == both[first.len()
        + i] by {}
    assert forall|term: Seq<char>|
        holds_all_terms(path, seq![term]) == #[trigger] strings::contains_text(path, term) by {
        let one = seq![term];
        assert(one[0] == term);
    }
}

/// Selecting by the terms of two lists gives the files that selecting by each of them
/// gives, the globs and the extensions being the same.
pub proof fn selecting_by_more_terms_is_an_intersection(
    mapper: PolicyMapper,
    path: Seq<char>,
    first: Selection,
    second: Selection,
    both: Selection,
    config: ContextConfig,
    roots: Seq<Seq<char>>,
)
    requires
        first.globs == both.globs,
        second.globs == both.globs,
        first.extensions@ == both.extensions@,
        second.extensions@ == both.extensions@,
        first.with_excluded == both.with_excluded,
        second.with_excluded == both.with_excluded,
        both.path_terms@ == first.path_terms@ + second.path_terms@,
    ensures
        included(mapper, path, both, config, roots) == (included(
            mapper,
            path,
            first,
            config,
            roots,
        ) && included(mapper, path, second, config, roots)),
{
    terms_narrow(
        mapper.scanned(path),
        strings::texts(first.path_terms@),
        strings::texts(second.path_terms@),
    );
    assert(strings::texts(both.path_terms@) =~= strings::texts(first.path_terms@)
        + strings::texts(second.path_terms@));
}

/// A file that is selected has, where extensions are given, one of them, whatever the
/// case of either; a further extension never leaves a file out, and with none given
/// every file passes.
pub proof fn extensions_widen(
    extension: Option<Seq<char>>,
    first: Seq<Seq<char>>,
    second: Seq<Seq<char>>,
)
    requires
        first.len() > 0,
        second.len() > 0,
    ensures
        has_extension(extension, first + second) == (has_extension(extension, first)
            || has_extension(extension, second)),
        has_extension(extension, Seq::empty()),
        !has_extension(None, first),
        forall|have: Seq<char>, wanted: Seq<char>|
            #[trigger] has_extension(Some(have), seq![wanted]) == (have.len() == wanted.len() && (
            forall|k: int|
                0 <= k < have.len() ==> strings::lower_char(#[trigger] have[k])
                    == strings::lower_char(wanted[k]))),
{
    let both = first + second;
    assert forall|i: int| 0 <= i < both.len() implies #[trigger] both[i] == if i < first.len() {
        first[i]
    } else {
        second[i - first.len()]
    } by {}
    assert forall|i: int| 0 <= i < first.len() implies #[trigger] first[i] == both[i] by {}
    assert forall|i: int| 0 <= i < second.len() implies #[trigger] second[i] == both[first.len()
        + i] by {}
    assert forall|have: Seq<char>, wanted: Seq<char>|
        #[trigger] has_extension(Some(have), seq![wanted]) == (have.len() == wanted.len() && (
        forall|k: int|
            0 <= k < have.len() ==> strings::lower_char(#[trigger] have[k]) == strings::lower_char(
                wanted[k],
            ))) by {
        let one = seq![wanted];
        assert(one[0] == wanted);
        let a = strings::lower_text(have);
        let b = strings::lower_text(wanted);
        assert(a.len() == have.len() && b.len() == wanted.len());
        assert(is_among(have, one) == (a == b)) by {
            if a == b {
                assert(strings::same_ignoring_case(have, one[0]));
            }
        }
        if a == b {
            assert forall|k: int| 0 <= k < have.len() implies strings::lower_char(
                #[trigger] have[k],
            ) == strings::lower_char(wanted[k]) by {
                assert(a[k] == strings::lower_char(have[k]));
                assert(b[k] == strings::lower_char(wanted[k]));
            }
        } else if have.len() == wanted.len() && (forall|k: int|
            0 <= k < have.len() ==> strings::lower_char(#[trigger] have[k]) == strings::lower_char(
                wanted[k],
            )) {
            assert(a =~= b);
        }
    }
}

/// A file directly below the root of a scan is matched by its name alone.
pub proof fn files_are_matched_below_the_root(mapper: PolicyMapper, name: Seq<char>)
    requires
        !mapper.root_is_file,
        mapper.host == Host::Posix,
        mapper.scan_root@.len() > 0,
        paths::is_plain_name(name, mapper.host),
    ensures
        mapper.scanned(mapper.scan_root@ + seq!['/'] + name) == name,
{
    let root = mapper.scan_root@;
    paths::names_are_last_components(root, name, mapper.host);
    assert(strings::join_texts(seq![name], "/"@) == name);
    if name[0] == '.' && name.len() == 1 {
        assert(name =~= seq!['.']);
    }
    if name.len() >= 2 {
        assert(name[1] != '/');
    }
    assert(!paths::starts_here(name, mapper.host));
    assert(paths::normalized(name, mapper.host) == name);
    paths::trimmed_paths_are_bare(name);
}

/// A path lies below a root if and only if it is the root, or the root, a slash and the
/// rest.
pub proof fn below_a_root_is_behind_its_slash(path: Seq<char>, root: Seq<char>, rest: Seq<char>)
    ensures
        below_root(root + seq!['/'] + rest, root) == Some(rest),
        below_root(root, root) == Some(Seq::<char>::empty()),
        below_root(path, root) matches Some(found) ==> path == root || path == root + seq!['/']
            + found,
{
    reveal_strlit("/");
    assert("/"@ =~= seq!['/']);
    let whole = root + seq!['/'] + rest;
    assert(root =~= whole.take(root.len() as int));
    assert(whole.subrange(root.len() as int, whole.len() as int) =~= seq!['/'] + rest);
    let tail = seq!['/'] + rest;
    assert("/"@ =~= tail.take(1));
    assert(tail.subrange(1, tail.len() as int) =~= rest);
    assert(whole.len() != root.len());
    match below_root(path, root) {
        Some(found) => {
            if path != root {
                let after = path.subrange(root.len() as int, path.len() as int);
                assert(path =~= root + after);
                assert(after =~= seq!['/'] + after.subrange(1, after.len() as int));
                assert(path =~= root + seq!['/'] + found);
            }
        },
        None => {},
    }
}

/// Of the roots that a path lies below, the longest one counts.
pub proof fn the_longest_root_counts(path: Seq<char>, roots: Seq<Seq<char>>, n: nat, i: int)
    requires
        n <= roots.len(),
        0 <= i < n,
        below_root(path, roots[i]) is Some,
    ensures
        below_longest(path, roots, n) matches Some((length, rest)) && roots[i].len() <= length && (
        exists|k: int|
            0 <= k < n && (#[trigger] roots[k]).len() == length && below_root(path, roots[k])
                == Some(rest)),
    decreases n,
{
    let before = below_longest(path, roots, (n - 1) as nat);
    if i < n - 1 {
        the_longest_root_counts(path, roots, (n - 1) as nat, i);
    } else if before is Some {
        lemma_longest_is_a_root(path, roots, (n - 1) as nat);
    }
}

proof fn lemma_longest_is_a_root(path: Seq<char>, roots: Seq<Seq<char>>, n: nat)
    requires
        n <= roots.len(),
        below_longest(path, roots, n) is Some,
    ensures
        exists|k: int|
            0 <= k < n && (#[trigger] roots[k]).len() == (below_longest(path, roots, n)->0).0
                && below_root(path, roots[k]) == Some((below_longest(path, roots, n)->0).1),
    decreases n,
{
    if n > 0 {
        let before = below_longest(path, roots, (n - 1) as nat);
        if before is Some {
            lemma_longest_is_a_root(path, roots, (n - 1) as nat);
        }
        if below_longest(path, roots, n) != before {
            assert(roots[n - 1].len() == (below_longest(path, roots, n)->0).0);
        }
    }
}

/// Globs match together where one of them does, so that a further glob never makes a
/// path that is excluded be let in; and without globs nothing is excluded.
pub proof fn exclusions_widen(
    path: Seq<char>,
    is_dir: bool,
    first: Seq<Seq<char>>,
    second: Seq<Seq<char>>,
    roots: Seq<Seq<char>>,
)
    ensures
        policy_matches(first + second, path, is_dir) == (policy_matches(first, path, is_dir)
            || policy_matches(second, path, is_dir)),
        excluded_by_policy(path, is_dir, first, roots) ==> excluded_by_policy(
            path,
            is_dir,
            first + second,
            roots,
        ),
        excluded_by_builtin(path, is_dir, first) ==> excluded_by_builtin(
            path,
            is_dir,
            first + second,
        ),
        !excluded_by_policy(path, is_dir, Seq::empty(), roots),
        !excluded_by_builtin(path, is_dir, Seq::empty()),
        // What a file matches, a directory of that path does.
        policy_matches(first, path, false) ==> policy_matches(first, path, is_dir),
{
    globs::globs_match_together(first, second, path);
    globs::globs_match_together(first, second, path + "/__contextmink_probe__"@);
    match relative_to_roots(path, roots) {
        Some(rest) => {
            globs::globs_match_together(first, second, rest);
            globs::globs_match_together(first, second, rest + "/__contextmink_probe__"@);
        },
        None => {},
    }
}

/// A root that is excluded but was asked for is searched, and so is what lies in it,
/// unless the globs match its path below that root.
pub proof fn roots_asked_for_are_let_in(
    root: Seq<char>,
    rest: Seq<char>,
    is_dir: bool,
    excludes: Seq<Seq<char>>,
)
    requires
        root.len() > 0,
        root[0] != '.',
        root.last() != '/',
        rest.len() > 0,
        rest.last() != '/',
        !policy_matches(excludes, rest, is_dir),
    ensures
        !excluded_by_policy(root, true, excludes, seq![root]),
        !excluded_by_policy(root + seq!['/'] + rest, is_dir, excludes, seq![root]),
{
    let whole = root + seq!['/'] + rest;
    below_a_root_is_behind_its_slash(whole, root, rest);
    paths::trimmed_paths_are_bare(root);
    paths::trimmed_paths_are_bare(whole);
    assert(whole[0] == root[0]);
    assert(whole.last() == rest.last());
    let roots = seq![root];
    assert(roots[0] == root);
    assert(below_longest(whole, roots, 0) is None);
    assert(below_longest(root, roots, 0) is None);
    assert(below_longest(whole, roots, 1) == Some((root.len(), rest)));
    assert(below_longest(root, roots, 1) == Some((root.len(), Seq::<char>::empty())));
}

/// An extension is the same with or without the dot, and in any case of its letters.
pub proof fn extensions_are_bare(extension: Seq<char>)
    requires
        extension.len() > 0,
        !strings::is_space(extension[0]),
        !strings::is_space(extension.last()),
        extension[0] != '.',
    ensures
        bare_extension(extension) == strings::lower_text(extension),
        bare_extension(seq!['.'] + extension) == strings::lower_text(extension),
        bare_extension(seq![' '] + extension + seq![' ']) == strings::lower_text(extension),
{
    let dotted = seq!['.'] + extension;
    strings::trimmed_text_stays(extension);
    assert(dotted.last() == extension.last());
    strings::trimmed_text_stays(dotted);
    assert(strings::trim_start(extension, CharClass::Only('.')) =~= extension);
    assert(strings::skip_class(dotted, CharClass::Only('.'), 1) == 1) by {
        assert(dotted[1] == extension[0]);
    }
    assert(strings::skip_class(dotted, CharClass::Only('.'), 0) == 1);
    assert(strings::trim_start(dotted, CharClass::Only('.')) =~= extension);
    let spaced = seq![' '] + extension + seq![' '];
    assert(spaced[1] == extension[0]);
    assert(strings::is_space(' '));
    assert(strings::skip_class(spaced, CharClass::Space, 1) == 1);
    assert(strings::skip_class(spaced, CharClass::Space, 0) == 1);
    let rest = strings::trim_start(spaced, CharClass::Space);
    assert(rest =~= extension + seq![' ']);
    assert(rest.last() == ' ');
    assert(rest[rest.len() - 2] == extension.last());
    assert(strings::rskip_class(rest, CharClass::Space, rest.len() - 1) == rest.len() - 1);
    assert(strings::rskip_class(rest, CharClass::Space, rest.len() as int) == rest.len() - 1);
    assert(strings::trim(spaced) =~= extension);
}

/// Lists of extensions are cut at commas: every part that is not blank is an extension
/// to look for, and nothing else is.
pub proof fn extensions_come_from_the_parts(parts: Seq<Seq<char>>, n: nat, extension: Seq<char>)
    requires
        n <= parts.len(),
    ensures
        extensions_in(parts, n).contains(extension) <==> extension.len() > 0 && (exists|i: int|
            0 <= i < n && bare_extension(#[trigger] parts[i]) == extension),
    decreases n,
{
    if n > 0 {
        extensions_come_from_the_parts(parts, (n - 1) as nat, extension);
        let before = extensions_in(parts, (n - 1) as nat);
        let all = extensions_in(parts, n);
        if all.len() > before.len() {
            assert(all.last() == bare_extension(parts[n - 1]));
            if before.contains(extension) {
                let k = before.index_of(extension);
                assert(all[k] == extension);
            }
            if all.contains(extension) {
                let k = all.index_of(extension);
                if k < before.len() {
                    assert(before[k] == extension);
                }
            }
            if extension == bare_extension(parts[n - 1]) {
                assert(all[before.len() as int] == extension);
            }
        }
    }
}

} // verus!
