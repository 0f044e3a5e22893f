//! The few `std::path` operations the engine relies on, over UTF-8 paths.
//!
//! What each gives is `std`'s business and is named here rather than restated:
//! the contracts tie each result to its arguments alone.
use vstd::prelude::*;

verus! {

/// The last normal component of a path (`Path::file_name`), when there is one.
pub uninterp spec fn path_file_name(path: Seq<char>) -> Option<Seq<char>>;

/// The file name without its last extension (`Path::file_stem`), when there is one.
pub uninterp spec fn path_file_stem(path: Seq<char>) -> Option<Seq<char>>;

/// The path without its last component (`Path::parent`), when there is one.
pub uninterp spec fn path_parent(path: Seq<char>) -> Option<Seq<char>>;

/// `path` with `name` adjoined (`Path::join`).
pub uninterp spec fn path_join(path: Seq<char>, name: Seq<char>) -> Seq<char>;

/// The file name of a path (`std::path::Path::file_name`, as text): its last
/// normal component, `None` for a path that ends in `..` or is a root or empty.
#[verifier::external_body]
pub(crate) fn file_name_of(path: &str) -> (r: Option<String>)
    ensures
        match r {
            Some(n) => path_file_name(path@) == Some(n@),
            None => path_file_name(path@) is None,
        },
{
    std::path::Path::new(path).file_name().map(|n| n.to_string_lossy().into_owned())
}

/// The file stem of a path (`std::path::Path::file_stem`, as text): the file
/// name without its last extension (a leading dot does not start one).
#[verifier::external_body]
pub(crate) fn file_stem_of(path: &str) -> (r: Option<String>)
    ensures
        match r {
            Some(n) => path_file_stem(path@) == Some(n@),
            None => path_file_stem(path@) is None,
        },
{
    std::path::Path::new(path).file_stem().map(|n| n.to_string_lossy().into_owned())
}

/// The parent of a path (`std::path::Path::parent`, as text): `None` for a root
/// or an empty path, `Some("")` for a single relative component.
#[verifier::external_body]
pub(crate) fn parent_of(path: &str) -> (r: Option<String>)
    ensures
        match r {
            Some(n) => path_parent(path@) == Some(n@),
            None => path_parent(path@) is None,
        },
{
    std::path::Path::new(path).parent().map(|n| n.to_string_lossy().into_owned())
}

/// A path with a name adjoined (`std::path::Path::join`, as text).
#[verifier::external_body]
pub(crate) fn join(path: &str, name: &str) -> (r: String)
    ensures
        r@ == path_join(path@, name@),
{
    std::path::Path::new(path).join(name).to_string_lossy().into_owned()
}

} // verus!
