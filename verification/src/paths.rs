//! Paths as strings, joined and taken apart by the standard library.
use vstd::prelude::*;

verus! {

/// What `std::path::Path::join` makes of a directory and a name.
pub uninterp spec fn joined_path(dir: Seq<char>, name: Seq<char>) -> Seq<char>;

/// What `std::path::Path::file_name` finds as the last component of a path.
pub uninterp spec fn path_file_name(path: Seq<char>) -> Option<Seq<char>>;

/// `std::path::Path::join` on two strings. Nothing is proved of the joining itself:
/// the result is the one value that the standard library gives for these two
/// arguments, and `joined_path` is its name.
#[verifier::external_body]
pub(crate) fn join_path(dir: &str, name: &str) -> (path: String)
    ensures
        path@ == joined_path(dir@, name@),
{
    std::path::Path::new(dir).join(name).to_string_lossy().into_owned()
}

/// `std::path::Path::file_name` on a string: the last component of the path, or
/// `None` where the path ends in `..` or has no component. The result is the one
/// that the standard library gives, under the name `path_file_name`.
#[verifier::external_body]
pub(crate) fn file_name_of(path: &str) -> (name: Option<String>)
    ensures
        match name {
            Some(n) => path_file_name(path@) == Some(n@),
            None => path_file_name(path@) is None,
        },
{
    std::path::Path::new(path).file_name().map(|n| n.to_string_lossy().into_owned())
}


/// The paths of a list, as a set.
pub open spec fn path_set(paths: Seq<String>) -> Set<Seq<char>> {
    Set::new(|p: Seq<char>| exists|i: int| 0 <= i < paths.len() && (#[trigger] paths[i])@ == p)
}

/// Whether `path` is among `paths`.
pub fn contains_path(paths: &Vec<String>, path: &str) -> (found: bool)
    ensures
        found == path_set(paths@).contains(path@),
{
    let mut i: usize = 0;
    while i < paths.len()
        invariant
            i <= paths@.len(),
            forall|j: int| 0 <= j < i ==> (#[trigger] paths@[j])@ != path@,
        decreases paths@.len() - i,
    {
        if crate::text::str_eq(paths[i].as_str(), path) {
            return true;
        }
        i += 1;
    }
    false
}

} // verus!
