//! Paths inside the workspace root.
//!
//! Paths are held as text. Whether one path lies under another, and what is
//! left of it without that prefix, is decided component by component by
//! `camino`, on top of `std::path`.

use camino::Utf8Path;
use vstd::prelude::*;

verus! {

/// Whether `camino::Utf8Path::starts_with` finds `base` to be a prefix of
/// `path`.
pub uninterp spec fn path_has_prefix(path: Seq<char>, base: Seq<char>) -> bool;

/// What `camino::Utf8Path::strip_prefix` leaves of `path` without the prefix
/// `base`; `None` where it fails.
pub uninterp spec fn path_without_prefix(path: Seq<char>, base: Seq<char>) -> Option<Seq<char>>;

/// The text of an optional string.
pub open spec fn optional_text(text: Option<String>) -> Option<Seq<char>> {
    match text {
        Some(text) => Some(text@),
        None => None,
    }
}

/// Whether `base` is a prefix of `path`, whole components only.
///
/// Calls `camino::Utf8Path::starts_with`, which hands both paths to
/// `std::path::Path::starts_with`. The contract claims only that the answer
/// depends on the two texts alone.
#[verifier::external_body]
pub(crate) fn starts_with(path: &str, base: &str) -> (inside: bool)
    ensures
        inside == path_has_prefix(path@, base@),
{
    Utf8Path::new(path).starts_with(base)
}

/// The rest of `path` behind the prefix `base`.
///
/// Calls `camino::Utf8Path::strip_prefix`, which hands both paths to
/// `std::path::Path::strip_prefix`. The contract claims only that the answer
/// depends on the two texts alone.
#[verifier::external_body]
pub(crate) fn strip_prefix(path: &str, base: &str) -> (rest: Option<String>)
    ensures
        optional_text(rest) == path_without_prefix(path@, base@),
{
    Utf8Path::new(path).strip_prefix(base).ok().map(|rest| rest.as_str().to_owned())
}

} // verus!
