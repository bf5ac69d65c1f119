//! Differences between two object roots: what was added, modified, removed
//! or left unchanged, for the root itself and for each path of a tree.

use crate::objects::{EntryView, Object, Tree};
use crate::odb::{is_tree, is_tree_oid};
use crate::order::same;
use crate::pathmap::{
    in_path_order, key_among, keys_rising, lemma_listed_keys, lemma_listed_value, listed, rebased,
    PathMap,
};
use crate::paths::{join_path, joined_path};
use vstd::prelude::*;

verus! {

/// The four maps of a difference, as texts.
pub ghost struct DiffView {
    pub added: Map<Seq<char>, Seq<char>>,
    pub modified: Map<Seq<char>, (Seq<char>, Seq<char>)>,
    pub removed: Map<Seq<char>, Seq<char>>,
    pub unchanged: Map<Seq<char>, Seq<char>>,
}

/// A difference: for each path that was added, removed or left unchanged its
/// identifier, and for each modified path its old and new identifier.
#[derive(Debug)]
pub struct Diff {
    pub added: PathMap<String>,
    pub modified: PathMap<(String, String)>,
    pub removed: PathMap<String>,
    pub unchanged: PathMap<String>,
}

impl View for Diff {
    type V = DiffView;

    open spec fn view(&self) -> DiffView {
        DiffView {
            added: self.added@,
            modified: self.modified@,
            removed: self.removed@,
            unchanged: self.unchanged@,
        }
    }
}

/// The difference in which nothing is listed.
pub open spec fn no_diff() -> DiffView {
    DiffView {
        added: Map::empty(),
        modified: Map::empty(),
        removed: Map::empty(),
        unchanged: Map::empty(),
    }
}

/// Two differences laid over each other: where both map a path, the second
/// counts.
pub open spec fn merged(first: DiffView, second: DiffView) -> DiffView {
    DiffView {
        added: first.added.union_prefer_right(second.added),
        modified: first.modified.union_prefer_right(second.modified),
        removed: first.removed.union_prefer_right(second.removed),
        unchanged: first.unchanged.union_prefer_right(second.unchanged),
    }
}

impl Default for Diff {
    fn default() -> (d: Diff)
        ensures
            d@ == no_diff(),
    {
        Diff {
            added: PathMap::new(),
            modified: PathMap::new(),
            removed: PathMap::new(),
            unchanged: PathMap::new(),
        }
    }
}

impl Diff {
    /// Lays `other` over this difference.
    #[must_use]
    pub fn merge(self, other: Diff) -> (d: Diff)
        ensures
            d@ == merged(self@, other@),
    {
        let mut d = self;
        d.added.extend(other.added);
        d.modified.extend(other.modified);
        d.removed.extend(other.removed);
        d.unchanged.extend(other.unchanged);
        d
    }

    /// Whether nothing changed: no path was added, modified or removed.
    pub fn is_empty(&self) -> (r: bool)
        ensures
            r == (self@.added == Map::<Seq<char>, Seq<char>>::empty() && self@.modified
                == Map::<Seq<char>, (Seq<char>, Seq<char>)>::empty() && self@.removed
                == Map::<Seq<char>, Seq<char>>::empty()),
    {
        self.added.is_empty() && self.modified.is_empty() && self.removed.is_empty()
    }
}

/// What became of a root.
#[derive(Debug)]
pub enum State<'a> {
    Added(&'a str),
    Modified(&'a str, &'a str),
    Removed(&'a str),
    Unchanged(&'a str),
}

/// What became of a root, as texts.
pub ghost enum RootChange {
    Added(Seq<char>),
    Modified(Seq<char>, Seq<char>),
    Removed(Seq<char>),
    Unchanged(Seq<char>),
}

impl<'a> View for State<'a> {
    type V = RootChange;

    open spec fn view(&self) -> RootChange {
        match *self {
            State::Added(n) => RootChange::Added(n@),
            State::Modified(o, n) => RootChange::Modified(o@, n@),
            State::Removed(o) => RootChange::Removed(o@),
            State::Unchanged(n) => RootChange::Unchanged(n@),
        }
    }
}

/// The text of an identifier that may be missing.
pub open spec fn text_of(oid: Option<&str>) -> Option<Seq<char>> {
    match oid {
        Some(s) => Some(s@),
        None => None,
    }
}

/// How the root itself changed from `old` to `new`; a root that is missing on
/// both sides is unchanged, with the empty identifier.
pub open spec fn root_change(old: Option<Seq<char>>, new: Option<Seq<char>>) -> RootChange {
    match (old, new) {
        (None, Some(n)) => RootChange::Added(n),
        (Some(o), Some(n)) => if o != n {
            RootChange::Modified(o, n)
        } else {
            RootChange::Unchanged(n)
        },
        (Some(o), None) => RootChange::Removed(o),
        (None, None) => RootChange::Unchanged(Seq::empty()),
    }
}

/// Classifies the root itself.
pub fn diff_root_oid<'a>(old: Option<&'a str>, new: Option<&'a str>) -> (r: State<'a>)
    ensures
        r@ == root_change(text_of(old), text_of(new)),
{
    match (old, new) {
        (None, Some(n)) => State::Added(n),
        (Some(o), Some(n)) => {
            if !same(o, n) {
                State::Modified(o, n)
            } else {
                State::Unchanged(n)
            }
        },
        (Some(o), None) => State::Removed(o),
        (None, None) => {
            let nothing = "";
            proof {
                reveal_strlit("");
                assert(nothing@ =~= Seq::<char>::empty());
            }
            State::Unchanged(nothing)
        },
    }
}

/// The path under which a root is listed: that of a tree gets an empty
/// component adjoined, which shows as a trailing separator.
pub open spec fn root_key(root: Seq<char>, oid: Option<Seq<char>>) -> Seq<char> {
    match oid {
        Some(o) => if is_tree_oid(o) {
            joined_path(root, Seq::empty())
        } else {
            root
        },
        None => root,
    }
}

/// The difference that lists the root alone.
pub open spec fn root_diff(root: Seq<char>, old: Option<Seq<char>>, new: Option<Seq<char>>) -> DiffView {
    match root_change(old, new) {
        RootChange::Added(n) => DiffView {
            added: Map::empty().insert(root_key(root, new), n),
            ..no_diff()
        },
        RootChange::Modified(o, n) => DiffView {
            modified: Map::empty().insert(root_key(root, new), (o, n)),
            ..no_diff()
        },
        RootChange::Removed(o) => DiffView {
            removed: Map::empty().insert(root_key(root, old), o),
            ..no_diff()
        },
        RootChange::Unchanged(n) => DiffView {
            unchanged: Map::empty().insert(root_key(root, new), n),
            ..no_diff()
        },
    }
}

/// The path under which the root with identifier `oid` is listed.
fn root_path(root: &str, oid: Option<&str>) -> (p: String)
    ensures
        p@ == root_key(root@, text_of(oid)),
{
    match oid {
        Some(o) => {
            if is_tree(o) {
                let nothing = "";
                proof {
                    reveal_strlit("");
                    assert(nothing@ =~= Seq::<char>::empty());
                }
                join_path(root, nothing)
            } else {
                root.to_owned()
            }
        },
        None => root.to_owned(),
    }
}

/// The difference of the root itself, listed under `root`.
pub fn diff_root(root: &str, old: Option<&str>, new: Option<&str>) -> (d: Diff)
    ensures
        d@ == root_diff(root@, text_of(old), text_of(new)),
{
    let mut diff = Diff::default();
    let old_root = root_path(root, old);
    let new_root = root_path(root, new);
    match diff_root_oid(old, new) {
        State::Added(n) => {
            diff.added.insert(new_root, n.to_owned());
        },
        State::Modified(o, n) => {
            diff.modified.insert(new_root, (o.to_owned(), n.to_owned()));
        },
        State::Removed(o) => {
            diff.removed.insert(old_root, o.to_owned());
        },
        State::Unchanged(n) => {
            diff.unchanged.insert(new_root, n.to_owned());
        },
    }
    diff
}

/// The entries of a tree that may be missing; a missing tree has none.
pub open spec fn entries_of(tree: Option<Tree>) -> Seq<EntryView> {
    match tree {
        Some(t) => t@,
        None => Seq::empty(),
    }
}

/// The entries of an object that may be missing; only a tree has any.
pub open spec fn object_entries(obj: Option<Object>) -> Seq<EntryView> {
    match obj {
        Some(Object::Tree(t)) => t@,
        _ => Seq::empty(),
    }
}

/// The difference between two manifests, each a map from path to identifier:
/// a path of the new one alone is added, a path of the old one alone is
/// removed, and a path of both is unchanged or modified as its identifiers
/// agree or not.
pub open spec fn tree_diff(
    old: Map<Seq<char>, Seq<char>>,
    new: Map<Seq<char>, Seq<char>>,
) -> DiffView {
    DiffView {
        added: Map::new(|k: Seq<char>| new.contains_key(k) && !old.contains_key(k), |k: Seq<char>| new[k]),
        modified: Map::new(
            |k: Seq<char>| old.contains_key(k) && new.contains_key(k) && old[k] != new[k],
            |k: Seq<char>| (old[k], new[k]),
        ),
        removed: Map::new(|k: Seq<char>| old.contains_key(k) && !new.contains_key(k), |k: Seq<char>| old[k]),
        unchanged: Map::new(
            |k: Seq<char>| old.contains_key(k) && new.contains_key(k) && old[k] == new[k],
            |k: Seq<char>| new[k],
        ),
    }
}

/// The map from path to identifier that a tree spells out.
fn index_tree(tree: Option<Tree>) -> (m: PathMap<String>)
    ensures
        m@ == listed(entries_of(tree)),
{
    let mut m: PathMap<String> = PathMap::new();
    match tree {
        None => {},
        Some(t) => {
            let mut i: usize = 0;
            assert(t@.take(0) =~= Seq::<EntryView>::empty());
            while i < t.entries.len()
                invariant
                    i <= t.entries.len(),
                    m@ == listed(t@.take(i as int)),
                decreases t.entries.len() - i,
            {
                let entry = &t.entries[i];
                proof {
                    assert(t@.take(i + 1).drop_last() =~= t@.take(i as int));
                    assert(t@.take(i + 1).last() == entry@);
                }
                m.insert(entry.relpath.clone(), entry.oid.clone());
                i += 1;
            }
            assert(t@.take(i as int) =~= t@);
        },
    }
    m
}

proof fn lemma_key_among_step<T>(items: Seq<(Seq<char>, T)>, i: int, key: Seq<char>)
    requires
        0 <= i < items.len(),
    ensures
        key_among(items, i + 1, key) <==> (key_among(items, i, key) || items[i].0 == key),
{
    if key_among(items, i + 1, key) {
        let j = choose|j: int| 0 <= j < i + 1 && j < items.len() && #[trigger] items[j].0 == key;
        if j < i {
            assert(key_among(items, i, key));
        }
    }
    if key_among(items, i, key) {
        let j = choose|j: int| 0 <= j < i && j < items.len() && #[trigger] items[j].0 == key;
        assert(items[j].0 == key);
    }
    if items[i].0 == key {
        assert(key_among(items, i + 1, key));
    }
}

/// The paths that only the old manifest has, with their identifiers.
fn removed_paths(old: &PathMap<String>, new: &PathMap<String>) -> (removed: PathMap<String>)
    ensures
        removed@ == tree_diff(old@, new@).removed,
{
    let mut removed: PathMap<String> = PathMap::new();
    let list = old.entries();
    let ghost items = old.items();
    let ghost a = old@;
    let ghost b = new@;
    let mut i: usize = 0;
    while i < list.len()
        invariant
            i <= list.len(),
            list@.map_values(|e: (String, String)| (e.0@, e.1@)) == items,
            items == old.items(),
            keys_rising(items),
            a == listed(items),
            b == new@,
            removed@ =~= Map::new(
                |k: Seq<char>| key_among(items, i as int, k) && !b.contains_key(k),
                |k: Seq<char>| a[k],
            ),
        decreases list.len() - i,
    {
        let key = &list[i].0;
        let value = &list[i].1;
        proof {
            assert(items[i as int] == (key@, value@));
            lemma_listed_value(items, i as int);
            assert forall|k: Seq<char>|
                key_among(items, i + 1, k) <==> (key_among(items, i as int, k) || items[i as int].0
                    == k) by {
                lemma_key_among_step(items, i as int, k);
            }
        }
        if !new.contains_key(key.as_str()) {
            removed.insert(key.clone(), value.clone());
        }
        i += 1;
    }
    proof {
        assert forall|k: Seq<char>| key_among(items, items.len() as int, k) <==> a.contains_key(
            k,
        ) by {
            lemma_listed_keys(items, k);
        }
        assert(removed@ =~= tree_diff(a, b).removed);
    }
    removed
}

/// The difference between two trees; a missing tree counts as empty.
pub fn diff_tree(old: Option<Tree>, new: Option<Tree>) -> (d: Diff)
    ensures
        d@ == tree_diff(listed(entries_of(old)), listed(entries_of(new))),
{
    let old_map = index_tree(old);
    let new_map = index_tree(new);
    let removed = removed_paths(&old_map, &new_map);
    let mut added: PathMap<String> = PathMap::new();
    let mut modified: PathMap<(String, String)> = PathMap::new();
    let mut unchanged: PathMap<String> = PathMap::new();
    let list = new_map.entries();
    let ghost items = new_map.items();
    let ghost a = old_map@;
    let ghost b = new_map@;
    let mut i: usize = 0;
    while i < list.len()
        invariant
            i <= list.len(),
            list@.map_values(|e: (String, String)| (e.0@, e.1@)) == items,
            keys_rising(items),
            b == listed(items),
            a == old_map@,
            added@ =~= Map::new(
                |k: Seq<char>| key_among(items, i as int, k) && !a.contains_key(k),
                |k: Seq<char>| b[k],
            ),
            modified@ =~= Map::new(
                |k: Seq<char>| key_among(items, i as int, k) && a.contains_key(k) && a[k] != b[k],
                |k: Seq<char>| (a[k], b[k]),
            ),
            unchanged@ =~= Map::new(
                |k: Seq<char>| key_among(items, i as int, k) && a.contains_key(k) && a[k] == b[k],
                |k: Seq<char>| b[k],
            ),
        decreases list.len() - i,
    {
        let key = &list[i].0;
        let new_value = &list[i].1;
        proof {
            assert(items[i as int] == (key@, new_value@));
            lemma_listed_value(items, i as int);
            assert forall|k: Seq<char>|
                key_among(items, i + 1, k) <==> (key_among(items, i as int, k) || items[i as int].0
                    == k) by {
                lemma_key_among_step(items, i as int, k);
            }
        }
        match old_map.get(key.as_str()) {
            Some(old_value) => {
                if same(new_value.as_str(), old_value.as_str()) {
                    unchanged.insert(key.clone(), new_value.clone());
                } else {
                    modified.insert(key.clone(), (old_value.clone(), new_value.clone()));
                }
            },
            None => {
                added.insert(key.clone(), new_value.clone());
            },
        }
        i += 1;
    }
    proof {
        assert forall|k: Seq<char>| key_among(items, items.len() as int, k) <==> b.contains_key(
            k,
        ) by {
            lemma_listed_keys(items, k);
        }
        assert(added@ =~= tree_diff(a, b).added);
        assert(modified@ =~= tree_diff(a, b).modified);
        assert(unchanged@ =~= tree_diff(a, b).unchanged);
    }
    Diff { added, modified, removed, unchanged }
}

/// Nothing differs between two empty manifests.
pub proof fn lemma_tree_diff_empty()
    ensures
        tree_diff(Map::empty(), Map::empty()) == no_diff(),
{
    let d = tree_diff(Map::empty(), Map::empty());
    assert(d.added =~= Map::empty());
    assert(d.modified =~= Map::empty());
    assert(d.removed =~= Map::empty());
    assert(d.unchanged =~= Map::empty());
}

/// The difference between two objects, path by path. Only trees have paths:
/// between two objects of which neither is a tree nothing is listed, and an
/// object that is no tree counts as the empty tree against one.
pub fn diff_object(old: Option<Object>, new: Option<Object>) -> (d: Diff)
    ensures
        d@ == tree_diff(listed(object_entries(old)), listed(object_entries(new))),
{
    match (old, new) {
        (Some(Object::Tree(t1)), Some(Object::Tree(t2))) => diff_tree(Some(t1), Some(t2)),
        (Some(Object::Tree(t)), _) => diff_tree(Some(t), None),
        (_, Some(Object::Tree(t))) => diff_tree(None, Some(t)),
        _ => {
            proof {
                lemma_tree_diff_empty();
            }
            Diff::default()
        },
    }
}

/// The paths that a tree lists.
pub open spec fn paths_of(tree: Seq<EntryView>) -> Set<Seq<char>> {
    Set::new(|k: Seq<char>| key_among(tree, tree.len() as int, k))
}

/// The difference between two trees is complete and lists no path twice:
/// the added, modified and unchanged paths are the paths of the new tree, the
/// removed, modified and unchanged paths are those of the old tree, and no
/// path is in two of the four maps.
pub proof fn lemma_diff_complete(old: Seq<EntryView>, new: Seq<EntryView>)
    ensures
        ({
            let d = tree_diff(listed(old), listed(new));
            &&& d.added.dom().union(d.modified.dom()).union(d.unchanged.dom()) == paths_of(new)
            &&& d.removed.dom().union(d.modified.dom()).union(d.unchanged.dom()) == paths_of(old)
            &&& d.added.dom().disjoint(d.modified.dom())
            &&& d.added.dom().disjoint(d.removed.dom())
            &&& d.added.dom().disjoint(d.unchanged.dom())
            &&& d.modified.dom().disjoint(d.removed.dom())
            &&& d.modified.dom().disjoint(d.unchanged.dom())
            &&& d.removed.dom().disjoint(d.unchanged.dom())
        }),
{
    let d = tree_diff(listed(old), listed(new));
    assert forall|k: Seq<char>| paths_of(new).contains(k) <==> listed(new).contains_key(k) by {
        lemma_listed_keys(new, k);
    }
    assert forall|k: Seq<char>| paths_of(old).contains(k) <==> listed(old).contains_key(k) by {
        lemma_listed_keys(old, k);
    }
    assert(d.added.dom().union(d.modified.dom()).union(d.unchanged.dom()) =~= paths_of(new));
    assert(d.removed.dom().union(d.modified.dom()).union(d.unchanged.dom()) =~= paths_of(old));
}

/// A difference with the paths of another laid over it, each adjoined to
/// `root`, map by map and in path order.
pub open spec fn rebased_diff(base: DiffView, root: Seq<char>, granular: DiffView) -> DiffView {
    DiffView {
        added: rebased(base.added, root, in_path_order(granular.added)),
        modified: rebased(base.modified, root, in_path_order(granular.modified)),
        removed: rebased(base.removed, root, in_path_order(granular.removed)),
        unchanged: rebased(base.unchanged, root, in_path_order(granular.unchanged)),
    }
}

impl Diff {
    /// Lays `granular` over this difference, each of its paths adjoined to
    /// `root`.
    pub fn rebase(self, root: &str, granular: Diff) -> (d: Diff)
        ensures
            d@ == rebased_diff(self@, root@, granular@),
    {
        let mut d = self;
        d.added.extend_under(root, granular.added);
        d.modified.extend_under(root, granular.modified);
        d.removed.extend_under(root, granular.removed);
        d.unchanged.extend_under(root, granular.unchanged);
        d
    }
}

/// The difference between two roots listed under `root`: that of the root
/// itself, and over it that of the two objects, path by path, each path
/// adjoined to `root`. `old_obj` and `new_obj` are the objects that `old` and
/// `new` name.
pub fn diff(
    root: &str,
    old: Option<&str>,
    new: Option<&str>,
    old_obj: Option<Object>,
    new_obj: Option<Object>,
) -> (d: Diff)
    ensures
        d@ == rebased_diff(
            root_diff(root@, text_of(old), text_of(new)),
            root@,
            tree_diff(listed(object_entries(old_obj)), listed(object_entries(new_obj))),
        ),
{
    let base = diff_root(root, old, new);
    let granular = diff_object(old_obj, new_obj);
    base.rebase(root, granular)
}

} // verus!
