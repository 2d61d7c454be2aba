//! The questions that are put to the file system. An answer holds for the moment at which it was
//! given; the next one about the same path may differ.

use std::path::Path;

use vstd::prelude::*;

verus! {

/// Asks `Path::is_dir`, which says whether the path exists on disk and points to a directory.
/// What is on disk decides, so nothing is claimed of the answer.
#[verifier::external_body]
fn path_is_dir(path: &str) -> (answer: bool) {
    Path::new(path).is_dir()
}

/// Asks `Path::is_file`, which says whether the path exists on disk and points to a regular
/// file. What is on disk decides, so nothing is claimed of the answer.
#[verifier::external_body]
fn path_is_file(path: &str) -> (answer: bool) {
    Path::new(path).is_file()
}

/// Asks `Path::exists`, which says whether the path points at an existing entity. What is on
/// disk decides, so nothing is claimed of the answer.
#[verifier::external_body]
fn path_exists(path: &str) -> (answer: bool) {
    Path::new(path).exists()
}

/// The file system can answer `answer` when it is asked whether `path` is a directory.
pub closed spec fn dir_answer(path: Seq<char>, answer: bool) -> bool {
    exists|s: &str| s@ == path && #[trigger] call_ensures(path_is_dir, (s,), answer)
}

/// The file system can answer `answer` when it is asked whether `path` is a regular file.
pub closed spec fn file_answer(path: Seq<char>, answer: bool) -> bool {
    exists|s: &str| s@ == path && #[trigger] call_ensures(path_is_file, (s,), answer)
}

/// The file system can answer `answer` when it is asked whether `path` exists.
pub closed spec fn exists_answer(path: Seq<char>, answer: bool) -> bool {
    exists|s: &str| s@ == path && #[trigger] call_ensures(path_exists, (s,), answer)
}

/// Whether `path` is a directory now.
pub fn is_dir(path: &str) -> (answer: bool)
    ensures
        dir_answer(path@, answer),
{
    path_is_dir(path)
}

/// Whether `path` is a regular file now.
pub fn is_file(path: &str) -> (answer: bool)
    ensures
        file_answer(path@, answer),
{
    path_is_file(path)
}

/// Whether there is anything at `path` now.
pub fn entry_exists(path: &str) -> (answer: bool)
    ensures
        exists_answer(path@, answer),
{
    path_exists(path)
}

} // verus!
