use vstd::prelude::*;
use std::path::Path;

verus! {

/// The text of an optional string.
pub open spec fn text_of(value: Option<String>) -> Option<Seq<char>> {
    match value {
        Some(s) => Some(s@),
        None => None,
    }
}

/// The directory that holds `path`, where the path has one: what
/// `Path::parent` of std gives for the text, read as a path.
pub uninterp spec fn parent_of(path: Seq<char>) -> Option<Seq<char>>;

/// A relative path that leads from the directory `base` to `path`, where one
/// can be formed from the two texts: what `diff_paths` of `pathdiff` gives
/// for them, read as paths.
pub uninterp spec fn relative_to(path: Seq<char>, base: Seq<char>) -> Option<Seq<char>>;

/// `Path::parent` of std on the text, its result turned into a string again:
/// the path without its last component, and nothing for a path that ends in
/// a root or is empty. The contract claims that the result depends on the
/// text alone, as it does: no file system is consulted, and the part of a
/// path that was made from a string is text.
#[verifier::external_body]
fn parent_dir(path: &str) -> (dir: Option<String>)
    ensures
        text_of(dir) == parent_of(path@),
{
    match Path::new(path).parent() {
        Some(dir) => Some(dir.to_string_lossy().into_owned()),
        None => None,
    }
}

/// `diff_paths` of `pathdiff` on the two texts, its result turned into a
/// string again: a relative path from the directory `base` to `path` as the
/// crate constructs it from the components of the two, and nothing where it
/// constructs none. The contract claims that the result depends on the two
/// texts alone, as it does: no file system is consulted, and a path put
/// together from components of strings and `..` is text.
#[verifier::external_body]
fn relative_path(path: &str, base: &str) -> (relative: Option<String>)
    ensures
        text_of(relative) == relative_to(path@, base@),
{
    match pathdiff::diff_paths(path, base) {
        Some(relative) => Some(relative.to_string_lossy().into_owned()),
        None => None,
    }
}

/// What a link at `member` must hold to reach `entry`: the relative path
/// from the member's parent directory to the entry. There is none where the
/// member has no parent directory or no relative path leads from it to the
/// entry.
pub open spec fn link_target_of(entry: Seq<char>, member: Seq<char>) -> Option<Seq<char>> {
    match parent_of(member) {
        Some(dir) => relative_to(entry, dir),
        None => None,
    }
}

/// Computes what a symbolic link at `member` must hold to reach `entry`.
pub fn link_target(entry: &str, member: &str) -> (target: Option<String>)
    ensures
        text_of(target) == link_target_of(entry@, member@),
{
    match parent_dir(member) {
        Some(dir) => relative_path(entry, dir.as_str()),
        None => None,
    }
}

} // verus!
