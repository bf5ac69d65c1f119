//! What differs between the snapshot that a pointer file records and another
//! one: that of the working tree, or that of an earlier revision.

use crate::diff::{
    diff_object, diff_root, merged, no_diff, object_entries, rebased_diff, root_diff, tree_diff,
    Diff, DiffView,
};
use crate::objects::{tree_oid, Object};
use crate::pathmap::listed;
use vstd::prelude::*;

verus! {

/// The identifier of an object: that of a file object is the object itself,
/// that of a tree the digest of its manifest.
pub open spec fn oid_of(obj: Object) -> Seq<char> {
    match obj {
        Object::Tree(t) => tree_oid(t@),
        Object::HashFile(o) => o@,
    }
}

/// The identifier of `obj`.
pub fn object_oid(obj: &Object) -> (oid: String)
    ensures
        oid@ == oid_of(*obj),
{
    match obj {
        Object::Tree(t) => t.digest().unwrap().1,
        Object::HashFile(o) => o.clone(),
    }
}

/// The difference between two objects, path by path, each path adjoined to
/// `root`.
pub fn diff_obj(root: &str, old: Option<Object>, new: Option<Object>) -> (d: Diff)
    ensures
        d@ == rebased_diff(
            no_diff(),
            root@,
            tree_diff(listed(object_entries(old)), listed(object_entries(new))),
        ),
{
    let granular = diff_object(old, new);
    Diff::default().rebase(root, granular)
}

/// The difference between two recorded snapshots of the data at `path`: the
/// paths that differ between the two objects, and over them the root itself.
/// `old_obj` and `new_obj` are the objects that `old_oid` and `new_oid` name.
pub open spec fn status_diff(
    path: Seq<char>,
    old_oid: Seq<char>,
    new_oid: Seq<char>,
    old_obj: Object,
    new_obj: Object,
) -> DiffView {
    merged(
        rebased_diff(
            no_diff(),
            path,
            tree_diff(listed(object_entries(Some(old_obj))), listed(object_entries(Some(new_obj)))),
        ),
        root_diff(path, Some(old_oid), Some(new_oid)),
    )
}

/// What changed between the snapshot recorded at an earlier revision and the
/// one recorded now, for the data at `path`.
pub fn status_git(path: &str, old_oid: &str, new_oid: &str, old_obj: Object, new_obj: Object) -> (d:
    Diff)
    ensures
        d@ == status_diff(path@, old_oid@, new_oid@, old_obj, new_obj),
{
    let diff = diff_obj(path, Some(old_obj), Some(new_obj));
    diff.merge(diff_root(path, Some(old_oid), Some(new_oid)))
}

/// What changed between the snapshot that the pointer file records, the
/// object `old_obj` with the identifier `oid`, and the snapshot `obj` just
/// built of the data at `path`.
pub fn status(path: &str, oid: &str, old_obj: Object, obj: Object) -> (d: Diff)
    ensures
        d@ == status_diff(path@, oid@, oid_of(obj), old_obj, obj),
{
    let obj_oid = object_oid(&obj);
    status_git(path, oid, obj_oid.as_str(), old_obj, obj)
}

} // verus!
