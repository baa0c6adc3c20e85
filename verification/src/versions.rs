//! Semantic versions, as the `semver` crate reads and orders them.
use std::cmp::Ordering;
use vstd::prelude::*;

verus! {

/// Whether `semver::Version::parse` accepts a text.
pub uninterp spec fn semver_valid(text: Seq<char>) -> bool;

/// How `Version::parse(a).ok()` compares with `Version::parse(b).ok()`:
/// `-1` before, `0` equal, `1` after.
pub uninterp spec fn semver_order(a: Seq<char>, b: Seq<char>) -> i8;

/// Whether `semver::Version::parse` accepts the text.
#[verifier::external_body]
pub(crate) fn parses_as_version(text: &str) -> (valid: bool)
    ensures
        valid == semver_valid(text@),
{
    semver::Version::parse(text).is_ok()
}

/// Compares two texts as `Option<semver::Version>` orders their parses
/// (`Ord` of `Version`, with a text that does not parse as `None`, which
/// comes before every version). That order is total: a text compares equal
/// to itself, and swapping the texts reverses the comparison.
#[verifier::external_body]
pub(crate) fn compare_versions(a: &str, b: &str) -> (order: i8)
    ensures
        order == semver_order(a@, b@),
        -1 <= order <= 1,
        !semver_valid(a@) && !semver_valid(b@) ==> order == 0,
        !semver_valid(a@) && semver_valid(b@) ==> order == -1,
        semver_valid(a@) && !semver_valid(b@) ==> order == 1,
        a@ == b@ ==> order == 0,
        order == -semver_order(b@, a@),
{
    let left = semver::Version::parse(a).ok();
    let right = semver::Version::parse(b).ok();
    match left.cmp(&right) {
        Ordering::Less => -1,
        Ordering::Equal => 0,
        Ordering::Greater => 1,
    }
}

} // verus!
