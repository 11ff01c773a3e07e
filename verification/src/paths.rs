//! std's path type as the library carries it, and the std calls made on it.

use std::path::PathBuf;
use vstd::prelude::*;

verus! {

/// Declares `std::path::PathBuf` to Verus as an opaque type: paths are
/// carried through, and nothing is known of what a path holds.
#[verifier::external_type_specification]
#[verifier::external_body]
pub struct ExPathBuf(PathBuf);

/// Whether `Path::is_absolute` holds of a path, as the target platform's
/// path rules decide it.
pub uninterp spec fn path_absolute(path: PathBuf) -> bool;

/// The path that `Path::join` builds from a directory and a path.
pub uninterp spec fn joined_path(dir: PathBuf, path: PathBuf) -> PathBuf;

/// The owned parent that `Path::parent` gives of a path, if any.
pub uninterp spec fn parent_path(path: PathBuf) -> Option<PathBuf>;

/// The text that `Path::display` shows of a path.
pub uninterp spec fn displayed_path(path: PathBuf) -> Seq<char>;

/// Wraps `Path::is_absolute`; its result is the one `path_absolute` names.
/// Which paths are absolute is the target platform's rule (a leading `/` on
/// Unix, a prefix and a root on Windows); that rule is not written out.
#[verifier::external_body]
pub(crate) fn path_is_absolute(path: &PathBuf) -> (r: bool)
    ensures
        r == path_absolute(*path),
{
    path.is_absolute()
}

/// Wraps `Path::join`; its result is the one `joined_path` names. How the
/// two are joined (separators, prefixes) is the target platform's rule and
/// is not written out.
#[verifier::external_body]
pub(crate) fn path_join(dir: &PathBuf, path: &PathBuf) -> (r: PathBuf)
    ensures
        r == joined_path(*dir, *path),
{
    dir.join(path)
}

/// Wraps `Path::parent`, turning the borrowed parent into an owned path;
/// its result is the one `parent_path` names.
#[verifier::external_body]
pub(crate) fn path_parent(path: &PathBuf) -> (r: Option<PathBuf>)
    ensures
        r == parent_path(*path),
{
    match path.parent() {
        Some(parent) => Some(parent.to_path_buf()),
        None => None,
    }
}

/// Wraps `Path::display` followed by `ToString::to_string`; the text is the
/// one `displayed_path` names (lossy for paths that are not Unicode).
#[verifier::external_body]
pub(crate) fn path_display(path: &PathBuf) -> (r: String)
    ensures
        r@ == displayed_path(*path),
{
    path.display().to_string()
}

} // verus!
