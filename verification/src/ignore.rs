//! Where the ignore rules for a directory are looked for.

use crate::paths::{join_path, joined_path, parent, parent_path, paths_equal, same_path};
use crate::text::texts;
use vstd::prelude::*;

verus! {

/// The files of ignore rules that count for `dir` in the repository at
/// `repo_root`: the `.dvcignore` of `dir`, then that of its parent, and so on
/// up to the `.dvcignore` of the root, or as far as there are parents.
pub open spec fn ignore_files(repo_root: Seq<char>, dir: Seq<char>) -> Seq<Seq<char>>
    decreases dir.len(),
{
    let here = joined_path(dir, ".dvcignore"@);
    if same_path(dir, repo_root) {
        seq![here]
    } else {
        match parent_path(dir) {
            Some(up) => if up.len() < dir.len() {
                seq![here] + ignore_files(repo_root, up)
            } else {
                seq![here]
            },
            None => seq![here],
        }
    }
}

/// Lists the files from which the ignore rules for `upto` are built, nearest
/// first.
pub fn get_ignore(repo_root: &str, upto: &str) -> (files: Vec<String>)
    ensures
        texts(files@) == ignore_files(repo_root@, upto@),
{
    let mut files: Vec<String> = Vec::new();
    let mut dir: String = upto.to_owned();
    loop
        invariant
            texts(files@) + ignore_files(repo_root@, dir@) =~= ignore_files(repo_root@, upto@),
        decreases dir@.len(),
    {
        let ghost before = files@;
        files.push(join_path(dir.as_str(), ".dvcignore"));
        assert(texts(files@) =~= texts(before).push(joined_path(dir@, ".dvcignore"@)));
        if paths_equal(dir.as_str(), repo_root) {
            return files;
        }
        match parent(dir.as_str()) {
            Some(up) => {
                dir = up;
            },
            None => {
                return files;
            },
        }
    }
}

} // verus!
