//! The layout of the object database: where the object of an identifier lies.

use crate::objects::HashFile;
use crate::paths::{join_path, joined_path};
use crate::text::{ends_with, has_suffix};
use vstd::prelude::*;
use vstd::string::StrSliceExecFns;

verus! {

/// An object database: the directory below which its objects lie.
#[derive(Debug)]
pub struct Odb {
    pub path: String,
}

/// The path of the object `oid` in the database at `root`: a directory named
/// by the first two characters of the identifier, and in it a file named by
/// the rest.
pub open spec fn odb_path(root: Seq<char>, oid: Seq<char>) -> Seq<char> {
    joined_path(joined_path(root, oid.subrange(0, 2)), oid.subrange(2, oid.len() as int))
}

/// Whether `oid` names a tree: it ends in `.dir`.
pub open spec fn is_tree_oid(oid: Seq<char>) -> bool {
    has_suffix(oid, ".dir"@)
}

/// The path of the object `oid` in the database at `root`.
pub fn oid_to_path(root: &str, oid: &str) -> (to: String)
    requires
        oid@.len() >= 2,
    ensures
        to@ == odb_path(root@, oid@),
{
    let n = oid.unicode_len();
    let dir = join_path(root, oid.substring_char(0, 2));
    join_path(dir.as_str(), oid.substring_char(2, n))
}

/// Whether `oid` names a tree.
pub fn is_tree(oid: &str) -> (r: bool)
    ensures
        r == is_tree_oid(oid@),
{
    ends_with(oid, ".dir")
}

/// What it takes to have the object of an identifier in hand.
#[derive(Debug)]
pub enum Stored {
    /// A file object: the identifier is all there is to know.
    HashFile(HashFile),
    /// A tree: its manifest is to be read from the file at this path.
    Manifest(String),
}

impl Odb {
    /// Resolves `oid`: an identifier that ends in `.dir` names a tree, whose
    /// manifest lies at its path in the database; any other names a file.
    pub fn load_object(&self, oid: &str) -> (r: Stored)
        ensures
            match r {
                Stored::Manifest(p) => is_tree_oid(oid@) && p@ == odb_path(self.path@, oid@),
                Stored::HashFile(h) => !is_tree_oid(oid@) && h@ == oid@,
            },
    {
        if is_tree(oid) {
            proof {
                reveal_strlit(".dir");
            }
            Stored::Manifest(oid_to_path(self.path.as_str(), oid))
        } else {
            Stored::HashFile(oid.to_owned())
        }
    }
}

} // verus!
