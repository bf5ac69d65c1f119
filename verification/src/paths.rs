//! Path arithmetic, done by `camino` on UTF-8 paths held as strings.
//!
//! What `camino` (and `std::path` beneath it) returns is named here by
//! functions without a body: the library states what it hands to each
//! operation and what it does with the result, not how the platform splits a
//! path.

use crate::text::{join_with, joined_with, texts};
use camino::Utf8Path;
use vstd::prelude::*;

verus! {

/// `base` with `path` adjoined, as `Utf8Path::join` gives it.
pub uninterp spec fn joined_path(base: Seq<char>, path: Seq<char>) -> Seq<char>;

/// `path` without the leading `base`, as `Utf8Path::strip_prefix` gives it;
/// `None` where `path` does not start with `base`.
pub uninterp spec fn stripped_path(path: Seq<char>, base: Seq<char>) -> Option<Seq<char>>;

/// `path` without its final component, as `Utf8Path::parent` gives it.
pub uninterp spec fn parent_path(path: Seq<char>) -> Option<Seq<char>>;

/// The extension of the file name of `path`, as `Utf8Path::extension` gives it.
pub uninterp spec fn path_extension(path: Seq<char>) -> Option<Seq<char>>;

/// `path` with the extension of its file name replaced, as
/// `Utf8Path::with_extension` gives it.
pub uninterp spec fn path_with_extension(path: Seq<char>, extension: Seq<char>) -> Seq<char>;

/// The components of `path`, as `Utf8Path::iter` yields them.
pub uninterp spec fn path_components(path: Seq<char>) -> Seq<Seq<char>>;

/// `path` as a tree writes it: its components with `/` between them, whatever
/// separates them on this platform.
pub open spec fn posix_form(path: Seq<char>) -> Seq<char> {
    joined_with(path_components(path), seq!['/'])
}

/// Whether two paths have the same components, as `==` on `Utf8Path` decides.
pub uninterp spec fn same_path(a: Seq<char>, b: Seq<char>) -> bool;

/// No character of `s` separates path components on any platform.
pub open spec fn separator_free(s: Seq<char>) -> bool {
    forall|i: int| 0 <= i < s.len() ==> s[i] != '/' && s[i] != '\\'
}

/// `Utf8Path::join`: the result is named by `joined_path`.
#[verifier::external_body]
pub(crate) fn join_path(base: &str, path: &str) -> (r: String)
    ensures
        r@ == joined_path(base@, path@),
{
    Utf8Path::new(base).join(path).into_string()
}

/// `Utf8Path::strip_prefix`: the result is named by `stripped_path`, with
/// `None` for the error that reports a missing prefix.
#[verifier::external_body]
pub(crate) fn strip_prefix(path: &str, base: &str) -> (r: Option<String>)
    ensures
        r.is_some() == stripped_path(path@, base@).is_some(),
        r matches Some(p) ==> stripped_path(path@, base@) == Some(p@),
{
    match Utf8Path::new(path).strip_prefix(base) {
        Ok(rest) => Some(rest.as_str().to_owned()),
        Err(_) => None,
    }
}

/// `Utf8Path::parent`: the result is named by `parent_path`. A parent is the
/// path without its final component, so it is shorter than the path.
#[verifier::external_body]
pub(crate) fn parent(path: &str) -> (r: Option<String>)
    ensures
        r.is_some() == parent_path(path@).is_some(),
        r matches Some(p) ==> parent_path(path@) == Some(p@) && p@.len() < path@.len(),
{
    match Utf8Path::new(path).parent() {
        Some(dir) => Some(dir.as_str().to_owned()),
        None => None,
    }
}

/// `Utf8Path::extension`: the result is named by `path_extension`.
#[verifier::external_body]
pub(crate) fn extension(path: &str) -> (r: Option<String>)
    ensures
        r.is_some() == path_extension(path@).is_some(),
        r matches Some(e) ==> path_extension(path@) == Some(e@),
{
    match Utf8Path::new(path).extension() {
        Some(ext) => Some(ext.to_owned()),
        None => None,
    }
}

/// `Utf8Path::with_extension`: the result is named by `path_with_extension`.
/// The function panics on an extension that holds a path separator, which
/// `requires` leaves out.
#[verifier::external_body]
pub(crate) fn with_extension(path: &str, extension: &str) -> (r: String)
    requires
        separator_free(extension@),
    ensures
        r@ == path_with_extension(path@, extension@),
{
    Utf8Path::new(path).with_extension(extension).into_string()
}

/// `Utf8Path::iter`: the result holds the components of `path`, in order,
/// and is named by `path_components`.
#[verifier::external_body]
pub(crate) fn components(path: &str) -> (r: Vec<String>)
    ensures
        texts(r@) == path_components(path@),
{
    Utf8Path::new(path).iter().map(str::to_owned).collect()
}

/// `path` with `/` between its components.
pub fn to_posix(path: &str) -> (r: String)
    ensures
        r@ == posix_form(path@),
{
    let parts = components(path);
    proof {
        reveal_strlit("/");
        assert("/"@ =~= seq!['/']);
    }
    join_with(&parts, "/")
}

/// `==` on `Utf8Path`: the result is named by `same_path`.
#[verifier::external_body]
pub(crate) fn paths_equal(a: &str, b: &str) -> (r: bool)
    ensures
        r == same_path(a@, b@),
{
    Utf8Path::new(a) == Utf8Path::new(b)
}

} // verus!
