//! Managers of the packages of one language.

pub mod cargo;
pub mod crates_io;
pub mod node;
pub mod pip;
pub mod pypi;
pub mod uv;

use vstd::prelude::*;

use crate::text::is_ascii_alphanumeric;

verus! {

/// The characters that versions are made of.
pub open spec fn is_version_char(c: char) -> bool {
    is_ascii_alphanumeric(c) || c == '.' || c == '-' || c == '+'
}

pub open spec fn has_version_chars(text: Seq<char>) -> bool {
    forall|i: int| 0 <= i < text.len() ==> is_version_char(#[trigger] text[i])
}

/// Whether the semver crate reads a text as a version.
pub uninterp spec fn parsed_version(text: Seq<char>) -> bool;

/// Whether a text is a version by the rules of semantic versioning.
pub open spec fn semantic_version(text: Seq<char>) -> bool {
    has_version_chars(text) && parsed_version(text)
}

/// `semver::Version::parse`, and whether it succeeds. Claimed: the result depends
/// on the text alone, and only a text of ASCII letters and digits, dots, hyphens and
/// plus signs is a version.
#[verifier::external_body]
pub(crate) fn is_semantic_version(text: &str) -> (r: bool)
    ensures
        r == (has_version_chars(text@) && parsed_version(text@)),
{
    semver::Version::parse(text).is_ok()
}

} // verus!
