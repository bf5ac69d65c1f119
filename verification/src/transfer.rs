//! What it takes to bring an object into the database: which files are
//! copied where, and what is written for a tree.
//!
//! Objects never change once they are stored, so a destination that exists
//! already is left alone.

use crate::objects::{tree_json, tree_oid, EntryView, Object, Tree};
use crate::odb::{odb_path, oid_to_path, Odb};
use crate::pathmap::PathMap;
use crate::paths::{join_path, joined_path};
use vstd::prelude::*;

verus! {

/// One file to be put at a destination, unless the destination exists.
#[derive(Clone, Debug, PartialEq, Eq)]
pub struct ObjectCopy {
    pub from: String,
    pub to: String,
}

/// A copy as a pair of paths: from where, to where.
pub type CopyView = (Seq<char>, Seq<char>);

impl View for ObjectCopy {
    type V = CopyView;

    open spec fn view(&self) -> CopyView {
        (self.from@, self.to@)
    }
}

/// The copies of a list, each as a pair of paths.
pub open spec fn copy_views(copies: Seq<ObjectCopy>) -> Seq<CopyView> {
    copies.map_values(|c: ObjectCopy| c@)
}

/// A file to be written with the given contents, unless it exists.
#[derive(Clone, Debug, PartialEq, Eq)]
pub struct ObjectWrite {
    pub to: String,
    pub contents: String,
}

/// All that a transfer does, and the identifier of what it stores.
#[derive(Debug)]
pub struct TransferPlan {
    /// The files to copy into the database, one for each file object.
    pub copies: Vec<ObjectCopy>,
    /// The manifest to write once the copies are made, for a tree.
    pub manifest: Option<ObjectWrite>,
    /// The identifier of the object.
    pub oid: String,
}

/// The copy that stores the file at `from` as the object `oid` of the
/// database at `root`.
pub fn transfer_obj(root: &str, from: &str, oid: &str) -> (copy: ObjectCopy)
    requires
        oid@.len() >= 2,
    ensures
        copy@ == (from@, odb_path(root@, oid@)),
{
    ObjectCopy { from: from.to_owned(), to: oid_to_path(root, oid) }
}

/// The write that stores `contents` as the object `oid` of the database at
/// `root`.
pub fn write_obj(root: &str, oid: &str, contents: &str) -> (write: ObjectWrite)
    requires
        oid@.len() >= 2,
    ensures
        write.to@ == odb_path(root@, oid@),
        write.contents@ == contents@,
{
    ObjectWrite { to: oid_to_path(root, oid), contents: contents.to_owned() }
}

/// Every identifier of the tree has the two characters that name its
/// directory in the database.
pub open spec fn storable(tree: Seq<EntryView>) -> bool {
    forall|i: int| 0 <= i < tree.len() ==> (#[trigger] tree[i]).1.len() >= 2
}

/// The copies that store the files of a tree found below `wroot`: for each
/// entry, in order, the file at its path below `wroot` goes to the place of
/// its identifier in the database at `root`.
pub open spec fn tree_copies(root: Seq<char>, wroot: Seq<char>, tree: Seq<EntryView>) -> Seq<
    CopyView,
> {
    tree.map_values(|e: EntryView| (joined_path(wroot, e.0), odb_path(root, e.1)))
}

/// Plans the transfer of a tree whose files lie below `wroot`: a copy for
/// each entry, then the manifest, written in canonical form at the place of
/// the tree's identifier.
pub fn transfer_tree(odb: &Odb, wroot: &str, tree: &Tree) -> (plan: TransferPlan)
    requires
        storable(tree@),
    ensures
        copy_views(plan.copies@) == tree_copies(odb.path@, wroot@, tree@),
        plan.oid@ == tree_oid(tree@),
        plan.manifest matches Some(w) && w.to@ == odb_path(odb.path@, tree_oid(tree@))
            && w.contents@ == tree_json(tree@),
{
    let mut copies: Vec<ObjectCopy> = Vec::new();
    let mut i: usize = 0;
    while i < tree.entries.len()
        invariant
            i <= tree.entries.len(),
            storable(tree@),
            copy_views(copies@) =~= tree_copies(odb.path@, wroot@, tree@.take(i as int)),
        decreases tree.entries.len() - i,
    {
        let entry = &tree.entries[i];
        assert(tree@[i as int] == entry@);
        let file = join_path(wroot, entry.relpath.as_str());
        let ghost before = copies@;
        let copy = transfer_obj(odb.path.as_str(), file.as_str(), entry.oid.as_str());
        copies.push(copy);
        assert(copy_views(copies@) =~= copy_views(before).push(copy@));
        i += 1;
    }
    assert(tree@.take(i as int) =~= tree@);
    let (serialized, oid) = tree.digest().unwrap();
    let manifest = Some(write_obj(odb.path.as_str(), oid.as_str(), serialized.as_str()));
    TransferPlan { copies, manifest, oid }
}

/// Plans the transfer of an object found at `wroot`. A file object is one
/// copy, of the file at `wroot`; a tree is planned as `transfer_tree` says.
pub fn transfer(odb: &Odb, wroot: &str, obj: &Object) -> (plan: TransferPlan)
    requires
        match obj {
            Object::HashFile(hf) => hf@.len() >= 2,
            Object::Tree(t) => storable(t@),
        },
    ensures
        match obj {
            Object::HashFile(hf) => {
                &&& copy_views(plan.copies@) == seq![(wroot@, odb_path(odb.path@, hf@))]
                &&& plan.manifest is None
                &&& plan.oid@ == hf@
            },
            Object::Tree(t) => {
                &&& copy_views(plan.copies@) == tree_copies(odb.path@, wroot@, t@)
                &&& plan.oid@ == tree_oid(t@)
                &&& plan.manifest matches Some(w) && w.to@ == odb_path(odb.path@, tree_oid(t@))
                    && w.contents@ == tree_json(t@)
            },
        },
{
    match obj {
        Object::HashFile(hf) => {
            let mut copies: Vec<ObjectCopy> = Vec::new();
            let copy = transfer_obj(odb.path.as_str(), wroot, hf.as_str());
            copies.push(copy);
            assert(copy_views(copies@) =~= seq![(wroot@, odb_path(odb.path@, hf@))]);
            TransferPlan { copies, manifest: None, oid: hf.clone() }
        },
        Object::Tree(t) => transfer_tree(odb, wroot, t),
    }
}

/// The files of a store once the given copies were gone through: those that
/// were present, and every destination.
pub open spec fn store_after(present: Set<Seq<char>>, copies: Seq<CopyView>) -> Set<Seq<char>>
    decreases copies.len(),
{
    if copies.len() == 0 {
        present
    } else {
        store_after(present, copies.drop_last()).insert(copies.last().1)
    }
}

/// The copies that are made when the given copies are gone through in order
/// on a store that holds `present`: each whose destination is not in the
/// store when its turn comes.
pub open spec fn performed(present: Set<Seq<char>>, copies: Seq<CopyView>) -> Seq<CopyView>
    decreases copies.len(),
{
    if copies.len() == 0 {
        Seq::empty()
    } else if store_after(present, copies.drop_last()).contains(copies.last().1) {
        performed(present, copies.drop_last())
    } else {
        performed(present, copies.drop_last()).push(copies.last())
    }
}

/// The copies that are still to be made, given the destinations that exist:
/// each copy whose destination neither exists nor is that of an earlier copy.
pub fn pending(copies: &Vec<ObjectCopy>, present: &PathMap<bool>) -> (todo: Vec<ObjectCopy>)
    ensures
        copy_views(todo@) == performed(present@.dom(), copy_views(copies@)),
{
    let ghost all = copy_views(copies@);
    let ghost start = present@.dom();
    let mut todo: Vec<ObjectCopy> = Vec::new();
    let mut seen: PathMap<bool> = PathMap::new();
    let mut i: usize = 0;
    assert(all.take(0) =~= Seq::<CopyView>::empty());
    assert(start.union(seen@.dom()) =~= start);
    while i < copies.len()
        invariant
            i <= copies.len(),
            all == copy_views(copies@),
            start == present@.dom(),
            start.union(seen@.dom()) == store_after(start, all.take(i as int)),
            copy_views(todo@) == performed(start, all.take(i as int)),
        decreases copies.len() - i,
    {
        let copy = &copies[i];
        proof {
            assert(all.take(i + 1).drop_last() =~= all.take(i as int));
            assert(all.take(i + 1).last() == copy@);
        }
        let known = present.contains_key(copy.to.as_str()) || seen.contains_key(copy.to.as_str());
        if !known {
            let ghost before = todo@;
            todo.push(ObjectCopy { from: copy.from.clone(), to: copy.to.clone() });
            assert(copy_views(todo@) =~= copy_views(before).push(copy@));
        }
        let ghost seen_before = seen@.dom();
        seen.insert(copy.to.clone(), true);
        assert(start.union(seen@.dom()) =~= start.union(seen_before).insert(copy.to@));
        i += 1;
    }
    assert(all.take(i as int) =~= all);
    todo
}

proof fn lemma_store_grows(present: Set<Seq<char>>, copies: Seq<CopyView>, i: int)
    requires
        0 <= i < copies.len(),
    ensures
        store_after(present, copies).contains(copies[i].1),
        present.subset_of(store_after(present, copies)),
    decreases copies.len(),
{
    if i < copies.len() - 1 {
        lemma_store_grows(present, copies.drop_last(), i);
    } else if copies.len() > 1 {
        lemma_store_grows(present, copies.drop_last(), 0);
    }
}

proof fn lemma_store_of_full(present: Set<Seq<char>>, copies: Seq<CopyView>)
    requires
        forall|i: int| 0 <= i < copies.len() ==> present.contains(#[trigger] copies[i].1),
    ensures
        store_after(present, copies) == present,
        performed(present, copies) == Seq::<CopyView>::empty(),
    decreases copies.len(),
{
    if copies.len() > 0 {
        let front = copies.drop_last();
        assert forall|i: int| 0 <= i < front.len() implies present.contains(
            #[trigger] front[i].1,
        ) by {
            assert(front[i] == copies[i]);
        }
        lemma_store_of_full(present, front);
        assert(present.contains(copies[copies.len() - 1].1));
        assert(store_after(present, copies) =~= present);
    }
}

/// A transfer made a second time changes nothing: once the copies were gone
/// through, going through them again makes no copy and leaves the store as
/// it is.
pub proof fn lemma_transfer_idempotent(present: Set<Seq<char>>, copies: Seq<CopyView>)
    ensures
        performed(store_after(present, copies), copies) == Seq::<CopyView>::empty(),
        store_after(store_after(present, copies), copies) == store_after(present, copies),
{
    let once = store_after(present, copies);
    assert forall|i: int| 0 <= i < copies.len() implies once.contains(#[trigger] copies[i].1) by {
        lemma_store_grows(present, copies, i);
    }
    lemma_store_of_full(once, copies);
}

} // verus!
