//! Conversions between vault texts and platform paths (`std::path`).
use std::path::{Path, PathBuf};
use vstd::prelude::*;

verus! {

#[verifier::external_type_specification]
#[verifier::external_body]
pub struct ExPathBuf(PathBuf);

#[verifier::external_type_specification]
#[verifier::external_body]
pub struct ExPath(Path);

/// The text of a platform path as `to_string_lossy` reads it.
pub uninterp spec fn path_text_of(p: &Path) -> Seq<char>;

/// The text of an owned platform path as `to_string_lossy` reads it.
pub uninterp spec fn path_buf_text_of(p: &PathBuf) -> Seq<char>;

/// The text of `path` relative to `root` (`strip_prefix`, then
/// `to_string_lossy`), or `None` when `path` does not start with `root`.
pub uninterp spec fn relative_text_of(path: &Path, root: &Path) -> Option<Seq<char>>;

/// `PathBuf::from` on a text. Stated: reading the platform path back with
/// `to_string_lossy` gives the text (a `&str` is valid UTF-8, so nothing is lost).
#[verifier::external_body]
pub(crate) fn path_buf_from(s: &str) -> (r: PathBuf)
    ensures
        path_buf_text_of(&r) == s@,
{
    PathBuf::from(s)
}

/// `Path::strip_prefix`, read back as text with `to_string_lossy`; `None` when
/// `path` does not start with `root`. Stated: the result is `relative_text_of`.
#[verifier::external_body]
pub(crate) fn relative_text(path: &Path, root: &Path) -> (r: Option<String>)
    ensures
        match r {
            Some(t) => relative_text_of(path, root) == Some(t@),
            None => relative_text_of(path, root) is None,
        },
{
    path.strip_prefix(root).ok().map(|p| p.to_string_lossy().to_string())
}

/// `Path::to_string_lossy`, as an owned text. Stated: the result is `path_text_of`.
#[verifier::external_body]
pub(crate) fn path_text(path: &Path) -> (r: String)
    ensures
        r@ == path_text_of(path),
{
    path.to_string_lossy().to_string()
}

/// `Path::to_string_lossy` on an owned platform path, as an owned text.
/// Stated: the result is `path_buf_text_of`.
#[verifier::external_body]
pub(crate) fn path_buf_text(path: &PathBuf) -> (r: String)
    ensures
        r@ == path_buf_text_of(path),
{
    path.to_string_lossy().to_string()
}

} // verus!
