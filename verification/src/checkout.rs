//! Bringing objects out of the database into the working tree: which file
//! goes where, and in which ways a link is tried.

use crate::objects::{EntryView, Object};
use crate::odb::{odb_path, oid_to_path, Odb};
use crate::order::same;
use crate::paths::{join_path, joined_path};
use crate::text::texts;
use crate::transfer::{copy_views, storable, CopyView, ObjectCopy};
use vstd::prelude::*;

verus! {

/// A way to make a file of the database appear in the working tree.
#[derive(Clone, Copy, Debug, PartialEq, Eq)]
pub enum LinkType {
    /// A copy, as a copy-on-write clone where the file system has one.
    Copy,
    /// A copy-on-write clone.
    Reflink,
    /// A hard link.
    Hardlink,
    /// A symbolic link.
    Symlink,
}

/// The way that a name of the setting `cache.type` stands for.
pub open spec fn link_named(name: Seq<char>) -> Option<LinkType> {
    if name == "copy"@ {
        Some(LinkType::Copy)
    } else if name == "reflink"@ {
        Some(LinkType::Reflink)
    } else if name == "hardlink"@ {
        Some(LinkType::Hardlink)
    } else if name == "symlink"@ {
        Some(LinkType::Symlink)
    } else {
        None
    }
}

/// The way that `name` stands for, if it is the name of one.
pub fn link_type(name: &str) -> (r: Option<LinkType>)
    ensures
        r == link_named(name@),
{
    if same(name, "copy") {
        Some(LinkType::Copy)
    } else if same(name, "reflink") {
        Some(LinkType::Reflink)
    } else if same(name, "hardlink") {
        Some(LinkType::Hardlink)
    } else if same(name, "symlink") {
        Some(LinkType::Symlink)
    } else {
        None
    }
}

/// What to do next for a destination.
#[derive(Debug)]
pub enum Attempt {
    /// Try this way.
    Try(LinkType),
    /// The next name of the setting names no way.
    Unknown(String),
    /// Every way was tried and none worked.
    Failed,
}

/// The names of the ways to try, the preferred one first: those of the
/// setting, or `copy` alone where nothing is set.
pub open spec fn preferences(cache_types: Option<Seq<Seq<char>>>) -> Seq<Seq<char>> {
    match cache_types {
        Some(names) => names,
        None => seq!["copy"@],
    }
}

/// The texts of a list of names that may be missing.
pub open spec fn names_of(cache_types: Option<&Vec<String>>) -> Option<Seq<Seq<char>>> {
    match cache_types {
        Some(v) => Some(texts(v@)),
        None => None,
    }
}

/// What to do for a destination after `failed` ways have been tried and have
/// failed: the ways are tried in the order of the setting, until one works.
pub fn checkout_file(cache_types: Option<&Vec<String>>, failed: usize) -> (next: Attempt)
    ensures
        ({
            let names = preferences(names_of(cache_types));
            match next {
                Attempt::Failed => failed >= names.len(),
                Attempt::Try(way) => failed < names.len() && link_named(names[failed as int])
                    == Some(way),
                Attempt::Unknown(name) => failed < names.len() && name@ == names[failed as int]
                    && link_named(name@) is None,
            }
        }),
{
    match cache_types {
        Some(names) => {
            if failed >= names.len() {
                Attempt::Failed
            } else {
                assert(texts(names@)[failed as int] == names[failed as int]@);
                match link_type(names[failed].as_str()) {
                    Some(way) => Attempt::Try(way),
                    None => Attempt::Unknown(names[failed].clone()),
                }
            }
        },
        None => {
            if failed >= 1 {
                Attempt::Failed
            } else {
                Attempt::Try(LinkType::Copy)
            }
        },
    }
}

/// The links that check a tree out below `to`: for each entry, in order, the
/// object of its identifier goes to its path below `to`.
pub open spec fn tree_links(root: Seq<char>, to: Seq<char>, tree: Seq<EntryView>) -> Seq<CopyView> {
    tree.map_values(|e: EntryView| (odb_path(root, e.1), joined_path(to, e.0)))
}

/// The links that check the object `obj` out at `to`: a file object goes to
/// `to` itself, and each file of a tree to its path below `to`.
pub fn checkout_obj(odb: &Odb, obj: &Object, to: &str) -> (links: Vec<ObjectCopy>)
    requires
        match obj {
            Object::HashFile(hf) => hf@.len() >= 2,
            Object::Tree(t) => storable(t@),
        },
    ensures
        copy_views(links@) == match obj {
            Object::HashFile(hf) => seq![(odb_path(odb.path@, hf@), to@)],
            Object::Tree(t) => tree_links(odb.path@, to@, t@),
        },
{
    let mut links: Vec<ObjectCopy> = Vec::new();
    match obj {
        Object::HashFile(hf) => {
            let from = oid_to_path(odb.path.as_str(), hf.as_str());
            let ghost source = from@;
            links.push(ObjectCopy { from, to: to.to_owned() });
            assert(copy_views(links@) =~= seq![(source, to@)]);
        },
        Object::Tree(tree) => {
            let mut i: usize = 0;
            while i < tree.entries.len()
                invariant
                    i <= tree.entries.len(),
                    storable(tree@),
                    copy_views(links@) =~= tree_links(odb.path@, to@, tree@.take(i as int)),
                decreases tree.entries.len() - i,
            {
                let entry = &tree.entries[i];
                assert(tree@[i as int] == entry@);
                let src = oid_to_path(odb.path.as_str(), entry.oid.as_str());
                let dst = join_path(to, entry.relpath.as_str());
                let ghost before = links@;
                let ghost link = (src@, dst@);
                links.push(ObjectCopy { from: src, to: dst });
                assert(copy_views(links@) =~= copy_views(before).push(link));
                i += 1;
            }
            assert(tree@.take(i as int) =~= tree@);
        },
    }
    links
}

} // verus!
