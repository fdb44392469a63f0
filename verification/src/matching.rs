//! Matching of names against a regular expression and of versions against
//! version requirements. Both are the work of outside crates; their results
//! are named here, and the wrappers that make the calls are believed.

use vstd::prelude::*;

verus! {

/// Declares `fancy_regex::Error`, the error of compiling or evaluating a
/// regular expression. Nothing is said of what is inside.
#[verifier::external_type_specification]
#[verifier::external_body]
pub struct ExRegexError(fancy_regex::Error);

/// Declares `semver::Error`, the error of reading a version or a version
/// requirement. Nothing is said of what is inside.
#[verifier::external_type_specification]
#[verifier::external_body]
pub struct ExSemverError(semver::Error);

/// Whether the regular expression `pattern` matches somewhere in `text`;
/// `None` where `pattern` is no regular expression, or where it cannot be
/// evaluated on `text`.
pub uninterp spec fn regex_is_match(pattern: Seq<char>, text: Seq<char>) -> Option<bool>;

/// Whether the version `version` meets the requirement `requirement`;
/// `None` where one of the two texts cannot be read.
pub uninterp spec fn semver_matches(requirement: Seq<char>, version: Seq<char>) -> Option<bool>;

/// Compiles `pattern` with `fancy_regex::Regex::new` and calls
/// `Regex::is_match` on `text`: the result is that of the match, or the
/// error with which either of the two failed.
#[verifier::external_body]
pub(crate) fn filter_matches(pattern: &str, text: &str) -> (r: Result<bool, fancy_regex::Error>)
    ensures
        match r {
            Ok(matched) => regex_is_match(pattern@, text@) == Some(matched),
            Err(_) => regex_is_match(pattern@, text@) is None,
        },
{
    fancy_regex::Regex::new(pattern)?.is_match(text)
}

/// Reads `requirement` with `semver::VersionReq::parse` and `version`
/// with `semver::Version::parse`, and calls `VersionReq::matches`: the
/// result is what it returns, or the error with which a text could not be
/// read.
#[verifier::external_body]
pub(crate) fn requirement_matches(requirement: &str, version: &str) -> (r: Result<
    bool,
    semver::Error,
>)
    ensures
        match r {
            Ok(matched) => semver_matches(requirement@, version@) == Some(matched),
            Err(_) => semver_matches(requirement@, version@) is None,
        },
{
    let requirement = semver::VersionReq::parse(requirement)?;
    let version = semver::Version::parse(version)?;
    Ok(requirement.matches(&version))
}

} // verus!
