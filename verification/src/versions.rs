//! Semantic versions, as the `semver` crate reads and orders them.
use vstd::prelude::*;

verus! {

/// The version of this release.
pub const VERSION: &'static str = "0.16.0";

/// Whether a text is a semantic version.
pub uninterp spec fn is_version(text: Seq<char>) -> bool;

/// Whether the first of two semantic versions has the higher precedence.
pub uninterp spec fn is_newer_version(a: Seq<char>, b: Seq<char>) -> bool;

/// `semver::Version::parse`, and the version as `Display` writes it. Whether a text
/// is a version depends on the text alone. Numbers have no leading zeros, and the
/// other parts are kept as they are, so a version is written as it was read.
#[verifier::external_body]
pub(crate) fn canonical_version(text: &str) -> (canonical: Option<String>)
    ensures
        match canonical {
            Some(canonical) => is_version(text@) && canonical@ == text@,
            None => !is_version(text@),
        },
{
    semver::Version::parse(text).ok().map(|version| version.to_string())
}

/// The order of `semver::Version`, which depends on the two versions alone; none is
/// newer than itself, nor newer than one that is newer than it. Nothing is compared
/// where a text is no version.
#[verifier::external_body]
pub(crate) fn is_newer(a: &str, b: &str) -> (newer: Option<bool>)
    ensures
        match newer {
            Some(newer) => {
                &&& is_version(a@)
                &&& is_version(b@)
                &&& newer == is_newer_version(a@, b@)
                &&& a@ == b@ ==> !newer
                &&& newer ==> !is_newer_version(b@, a@)
            },
            None => !is_version(a@) || !is_version(b@),
        },
{
    Some(semver::Version::parse(a).ok()? > semver::Version::parse(b).ok()?)
}

} // verus!
