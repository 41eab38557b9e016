//! Semantic versions, read and ordered by the `semver` crate.

use vstd::prelude::*;

verus! {

/// The error of the `semver` crate's parsers.
#[verifier::external_type_specification]
#[verifier::external_body]
pub struct ExSemverError(semver::Error);

/// The pre-release tag of the version that `semver::Version::parse` reads
/// from `text`: empty for a stable version, and nothing where the text is
/// rejected.
pub uninterp spec fn semver_prerelease(text: Seq<char>) -> Option<Seq<char>>;

/// Whether, of the versions that `semver::Version::parse` reads from `a`
/// and from `b`, the first is less than the second in the order of
/// `semver::Version`.
pub uninterp spec fn semver_less(a: Seq<char>, b: Seq<char>) -> bool;

/// Whether `text` is a semantic version.
pub open spec fn is_version(text: Seq<char>) -> bool {
    semver_prerelease(text) is Some
}

/// Whether `text` is a semantic version without a pre-release tag.
pub open spec fn is_stable(text: Seq<char>) -> bool {
    semver_prerelease(text) matches Some(pre) && pre.len() == 0
}

/// Calls `semver::Version::parse` and hands out the pre-release tag of
/// what was read. The contract gives that tag, and the rejection, a name;
/// it claims no more than that the same text is always read the same way.
#[verifier::external_body]
pub(crate) fn parse_prerelease(text: &str) -> (r: Result<String, semver::Error>)
    ensures
        match r {
            Ok(pre) => semver_prerelease(text@) == Some(pre@),
            Err(_) => semver_prerelease(text@) is None,
        },
{
    let version = semver::Version::parse(text)?;
    Ok(version.pre.as_str().to_string())
}

/// Compares, with `<` of `semver::Version`, the versions that
/// `semver::Version::parse` reads from two texts. Both texts must be
/// versions. The contract gives the answer a name.
#[verifier::external_body]
pub(crate) fn version_less(a: &str, b: &str) -> (less: bool)
    requires
        is_version(a@),
        is_version(b@),
    ensures
        less == semver_less(a@, b@),
{
    semver::Version::parse(a).unwrap() < semver::Version::parse(b).unwrap()
}

} // verus!
