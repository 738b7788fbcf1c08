//! Paths as the report shows them.

use vstd::prelude::*;

verus! {

/// What `std::path::Path::strip_prefix` gives for `path` and `prefix`, both
/// read as text: the rest of the path behind the prefix, or `None` where the
/// prefix does not lead the path. The operation looks at the two paths alone
/// and never at the file system.
pub uninterp spec fn rest_after_prefix(path: Seq<char>, prefix: Seq<char>) -> Option<Seq<char>>;

/// Calls `std::path::Path::strip_prefix` on `path` and hands the rest back
/// as text, or `None` where `prefix` does not lead `path`.
///
/// Trusted: the outcome is the one that the call has for these two paths.
/// What that outcome is, is not claimed: how a path falls into components
/// is the matter of the platform's path syntax.
#[verifier::external_body]
fn strip_prefix(path: &str, prefix: &str) -> (rest: Option<String>)
    ensures
        text_of(rest) == rest_after_prefix(path@, prefix@),
{
    match std::path::Path::new(path).strip_prefix(prefix) {
        Ok(rest) => Some(rest.to_string_lossy().into_owned()),
        Err(_) => None,
    }
}

/// The views of an optional string.
pub open spec fn text_of(s: Option<String>) -> Option<Seq<char>> {
    match s {
        Some(text) => Some(text@),
        None => None,
    }
}

/// The path to show, given what stripping the prefix gave: the rest where
/// the prefix was there, the path as it is otherwise.
pub open spec fn shown_path(path: Seq<char>, stripped: Option<Seq<char>>) -> Seq<char> {
    match stripped {
        Some(rest) => rest,
        None => path,
    }
}

/// Picks the path to show from a path and the outcome of stripping it.
pub fn shown_from(path: &str, stripped: Option<String>) -> (shown: String)
    ensures
        shown@ == shown_path(path@, text_of(stripped)),
{
    match stripped {
        Some(rest) => rest,
        None => String::from_str(path),
    }
}

/// The path as the report shows it: what is left of it behind a leading
/// `./`, where it has one, and the path as it is otherwise.
pub fn display_path(path: &str) -> (shown: String)
    ensures
        shown@ == shown_path(path@, rest_after_prefix(path@, "./"@)),
{
    let stripped = strip_prefix(path, "./");
    shown_from(path, stripped)
}

} // verus!
