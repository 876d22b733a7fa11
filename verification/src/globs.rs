//! Sets of globs, as the `globset` crate compiles and matches them.
use vstd::prelude::*;

use crate::strings;

verus! {

#[verifier::external_type_specification]
#[verifier::external_body]
pub struct ExGlob(globset::Glob);

#[verifier::external_type_specification]
#[verifier::external_body]
pub struct ExGlobSetBuilder(globset::GlobSetBuilder);

#[verifier::external_type_specification]
#[verifier::external_body]
pub struct ExGlobSet(globset::GlobSet);

/// Why a text is no glob, or `None` if it is one.
pub uninterp spec fn glob_error(pattern: Seq<char>) -> Option<Seq<char>>;

/// Whether a path matches a glob.
pub uninterp spec fn glob_matches(pattern: Seq<char>, path: Seq<char>) -> bool;

/// The text that a glob was made of.
pub uninterp spec fn glob_source(glob: globset::Glob) -> Seq<char>;

/// The texts of the globs that were added, in order.
pub uninterp spec fn builder_globs(builder: globset::GlobSetBuilder) -> Seq<Seq<char>>;

/// The texts of the globs of a compiled set, in order.
pub uninterp spec fn compiled_globs(set: globset::GlobSet) -> Seq<Seq<char>>;

/// A set of globs. It is made here alone, so that every set is compiled with the same
/// options.
pub struct PatternSet {
    compiled: globset::GlobSet,
}

/// The texts of the globs of a set, in order.
pub closed spec fn set_globs(set: PatternSet) -> Seq<Seq<char>> {
    compiled_globs(set.compiled)
}

/// A text without a backslash means the same on every host; one with a backslash
/// does not, since it may be a separator there.
pub open spec fn plain(text: Seq<char>) -> bool {
    forall|i: int| 0 <= i < text.len() ==> #[trigger] text[i] != '\\'
}

pub open spec fn all_plain(texts: Seq<Seq<char>>) -> bool {
    forall|i: int| 0 <= i < texts.len() ==> plain(#[trigger] texts[i])
}

/// `Glob::new`: parses the text. Whether that fails, and with which message,
/// depends on the text alone where it holds no backslash; of other texts nothing is
/// said here, because the host's separators decide what a backslash means.
#[verifier::external_body]
fn compile_glob(pattern: &str) -> (compiled: Result<globset::Glob, String>)
    ensures
        match compiled {
            Ok(glob) => glob_source(glob) == pattern@ && (plain(pattern@) ==> glob_error(pattern@)
                is None),
            Err(message) => plain(pattern@) ==> glob_error(pattern@) == Some(message@),
        },
{
    globset::Glob::new(pattern).map_err(|error| error.to_string())
}

/// `GlobSetBuilder::new`: a builder without globs.
#[verifier::external_body]
fn new_builder() -> (builder: globset::GlobSetBuilder)
    ensures
        builder_globs(builder) == Seq::<Seq<char>>::empty(),
{
    globset::GlobSetBuilder::new()
}

/// `GlobSetBuilder::add`: adds the glob behind those that are there.
#[verifier::external_body]
fn add_glob(builder: &mut globset::GlobSetBuilder, glob: globset::Glob)
    ensures
        builder_globs(*final(builder)) == builder_globs(*old(builder)).push(glob_source(glob)),
{
    builder.add(glob);
}

/// `GlobSetBuilder::build`: the set of the globs that were added. It can fail where
/// the globs compile to too large an automaton; when, is not said here, because that
/// limit counts bytes of memory. Without globs it does not fail.
#[verifier::external_body]
fn build_set(builder: &globset::GlobSetBuilder) -> (built: Result<globset::GlobSet, String>)
    ensures
        match built {
            Ok(set) => compiled_globs(set) == builder_globs(*builder),
            Err(message) => builder_globs(*builder).len() > 0,
        },
{
    builder.build().map_err(|error| error.to_string())
}

/// Whether one of the globs matches the path.
pub open spec fn some_glob_matches(globs: Seq<Seq<char>>, path: Seq<char>) -> bool {
    exists|i: int| 0 <= i < globs.len() && glob_matches(#[trigger] globs[i], path)
}

/// `GlobSet::is_match`: whether one of the set's globs matches the path. Of a path
/// or a glob with a backslash nothing is said here, because the host's separators
/// decide what a backslash means; an empty set matches nothing.
#[verifier::external_body]
fn is_compiled_match(set: &globset::GlobSet, path: &str) -> (found: bool)
    ensures
        plain(path@) && all_plain(compiled_globs(*set)) ==> found == (exists|i: int|
            0 <= i < compiled_globs(*set).len() && glob_matches(
                #[trigger] compiled_globs(*set)[i],
                path@,
            )),
        compiled_globs(*set).len() == 0 ==> !found,
{
    set.is_match(path)
}

impl PatternSet {
    /// Whether one of the globs matches the path.
    pub fn is_match(&self, path: &str) -> (found: bool)
        ensures
            plain(path@) && all_plain(set_globs(*self)) ==> found == some_glob_matches(
                set_globs(*self),
                path@,
            ),
            set_globs(*self).len() == 0 ==> !found,
    {
        is_compiled_match(&self.compiled, path)
    }
}

/// Why globs make no set.
#[derive(Debug)]
pub enum GlobFault {
    /// One of them is no glob.
    Pattern { pattern: String, detail: String },
    /// They cannot be compiled together.
    Compile { detail: String },
}

/// The first text from here on that is no glob.
pub open spec fn first_bad(patterns: Seq<Seq<char>>, at: int) -> Option<(Seq<char>, Seq<char>)>
    decreases patterns.len() - at,
{
    if at < 0 || at >= patterns.len() {
        None
    } else {
        match glob_error(patterns[at]) {
            Some(detail) => Some((patterns[at], detail)),
            None => first_bad(patterns, at + 1),
        }
    }
}

/// The set of globs that texts are. The first text that is no glob is refused; a
/// set of no globs can always be had.
pub fn build_globset(patterns: &[String]) -> (built: Result<PatternSet, GlobFault>)
    ensures
        match built {
            Ok(set) => {
                &&& set_globs(set) == strings::texts(patterns@)
                &&& all_plain(strings::texts(patterns@)) ==> first_bad(
                    strings::texts(patterns@),
                    0,
                ) is None
            },
            Err(GlobFault::Pattern { pattern, detail }) => {
                &&& strings::texts(patterns@).contains(pattern@)
                &&& all_plain(strings::texts(patterns@)) ==> first_bad(
                    strings::texts(patterns@),
                    0,
                ) == Some((pattern@, detail@))
            },
            Err(GlobFault::Compile { detail }) => {
                &&& patterns@.len() > 0
                &&& all_plain(strings::texts(patterns@)) ==> first_bad(
                    strings::texts(patterns@),
                    0,
                ) is None
            },
        },
{
    let ghost texts = strings::texts(patterns@);
    let mut builder = new_builder();
    let mut i: usize = 0;
    assert(texts.take(0) =~= Seq::empty());
    while i < patterns.len()
        invariant
            i <= patterns.len(),
            texts == strings::texts(patterns@),
            builder_globs(builder) == texts.take(i as int),
            all_plain(texts) ==> first_bad(texts, i as int) == first_bad(texts, 0),
        decreases patterns.len() - i,
    {
        assert(texts[i as int] == patterns@[i as int]@);
        match compile_glob(patterns[i].as_str()) {
            Ok(glob) => {
                add_glob(&mut builder, glob);
                assert(texts.take(i + 1) =~= texts.take(i as int).push(texts[i as int]));
            },
            Err(detail) => {
                return Err(GlobFault::Pattern { pattern: patterns[i].clone(), detail });
            },
        }
        i += 1;
    }
    assert(texts.take(i as int) =~= texts);
    match build_set(&builder) {
        Ok(compiled) => Ok(PatternSet { compiled }),
        Err(detail) => Err(GlobFault::Compile { detail }),
    }
}

/// Globs match a path together if and only if one of them does.
pub proof fn globs_match_together(first: Seq<Seq<char>>, second: Seq<Seq<char>>, path: Seq<char>)
    ensures
        some_glob_matches(first + second, path) == (some_glob_matches(first, path)
            || some_glob_matches(second, path)),
        !some_glob_matches(Seq::empty(), path),
{
    let both = first + second;
    assert forall|i: int| 0 <= i < both.len() implies #[trigger] both[i] == if i < first.len() {
        first[i]
    } else {
        second[i - first.len()]
    } by {}
    assert forall|i: int| 0 <= i < first.len() implies #[trigger] first[i] == both[i] by {}
    assert forall|i: int| 0 <= i < second.len() implies #[trigger] second[i] == both[first.len()
        + i] by {}
}

} // verus!
