//! The rules of a snapshot: which files of a walk are kept, which of them the
//! fingerprint cache answers for and which must be hashed, what is written
//! back to the cache, and how the tree is put together.
//!
//! Walking directories, reading metadata, hashing file contents and talking
//! to the cache happen outside; each step here takes what they returned.

use crate::fsutils::{compute_checksum, fingerprint};
use crate::objects::{
    distinct_paths, entry_views, lemma_sorted_distinct_is_strict, lemma_sorted_unique, sorted,
    strictly_sorted, tree_oid, EntryView, Oid, Tree, TreeEntry,
};
use crate::order::same;
use crate::pathmap::PathMap;
use crate::paths::{posix_form, strip_prefix, stripped_path, to_posix};
use crate::sorting::sort_entries;
use crate::state::{StateHash, StateValue, StateValueView};
use crate::text::texts;
use vstd::prelude::*;

verus! {

/// What a snapshot knows of a file before it is hashed.
#[derive(Clone, Debug, PartialEq, Eq)]
pub struct FileInfo {
    pub checksum: String,
    pub path: String,
    pub size: u64,
}

/// A `FileInfo` as texts and a number.
pub ghost struct FileInfoView {
    pub checksum: Seq<char>,
    pub path: Seq<char>,
    pub size: u64,
}

impl View for FileInfo {
    type V = FileInfoView;

    open spec fn view(&self) -> FileInfoView {
        FileInfoView { checksum: self.checksum@, path: self.path@, size: self.size }
    }
}

/// Why a snapshot could not be built.
#[derive(Debug)]
pub enum BuildError {
    /// This path does not lie below the root of the snapshot.
    StripPrefixError(String),
}

impl FileInfo {
    /// What is known of the file at `path` from its metadata: its size, and
    /// the fingerprint of its modification time (seconds, as decimal text),
    /// inode or file identifier, and size.
    pub fn from_metadata(path: &str, mtime: &str, ino: u128, size: u64) -> (info: FileInfo)
        ensures
            info@ == (FileInfoView {
                checksum: fingerprint(mtime@, ino as nat, size as nat),
                path: path@,
                size,
            }),
    {
        FileInfo { checksum: compute_checksum(mtime, ino, size), path: path.to_owned(), size }
    }
}

/// Whether a walk stays out of the directory named `name`: the control
/// directories `.dvc`, `.git` and `.hg` are not entered.
pub fn is_pruned(name: &str) -> (r: bool)
    ensures
        r == (name@ == ".dvc"@ || name@ == ".git"@ || name@ == ".hg"@),
{
    same(name, ".dvc") || same(name, ".git") || same(name, ".hg")
}

/// An entry that a walk came by: its path, whether it is a regular file, and
/// whether the ignore rules match it or one of its parents.
#[derive(Clone, Debug)]
pub struct WalkEntry {
    pub path: String,
    pub is_file: bool,
    pub ignored: bool,
}

/// A `WalkEntry` as a text and two flags.
pub ghost struct WalkEntryView {
    pub path: Seq<char>,
    pub is_file: bool,
    pub ignored: bool,
}

impl View for WalkEntry {
    type V = WalkEntryView;

    open spec fn view(&self) -> WalkEntryView {
        WalkEntryView { path: self.path@, is_file: self.is_file, ignored: self.ignored }
    }
}

/// The entries of a list, each as a text and two flags.
pub open spec fn walk_views(entries: Seq<WalkEntry>) -> Seq<WalkEntryView> {
    entries.map_values(|e: WalkEntry| e@)
}

/// The paths of the entries that a snapshot keeps, in order: the regular
/// files that are not ignored.
pub open spec fn kept(entries: Seq<WalkEntryView>) -> Seq<Seq<char>>
    decreases entries.len(),
{
    if entries.len() == 0 {
        Seq::empty()
    } else if entries.last().is_file && !entries.last().ignored {
        kept(entries.drop_last()).push(entries.last().path)
    } else {
        kept(entries.drop_last())
    }
}

/// Picks the files of a walk that go into the snapshot.
pub fn collect_files(entries: &Vec<WalkEntry>) -> (paths: Vec<String>)
    ensures
        texts(paths@) == kept(walk_views(entries@)),
{
    let mut paths: Vec<String> = Vec::new();
    let ghost all = walk_views(entries@);
    let mut i: usize = 0;
    assert(all.take(0) =~= Seq::<WalkEntryView>::empty());
    while i < entries.len()
        invariant
            i <= entries.len(),
            all == walk_views(entries@),
            texts(paths@) =~= kept(all.take(i as int)),
        decreases entries.len() - i,
    {
        let entry = &entries[i];
        proof {
            assert(all.take(i + 1).drop_last() =~= all.take(i as int));
            assert(all.take(i + 1).last() == entry@);
        }
        if entry.is_file && !entry.ignored {
            let ghost before = paths@;
            paths.push(entry.path.clone());
            assert(texts(paths@) =~= texts(before).push(entry.path@));
        }
        i += 1;
    }
    assert(all.take(i as int) =~= all);
    paths
}

/// No path that is kept belongs to an ignored entry, unless the walk came by
/// the same path a second time and did not ignore it then.
pub proof fn lemma_kept_not_ignored(entries: Seq<WalkEntryView>, i: int)
    requires
        0 <= i < kept(entries).len(),
    ensures
        exists|j: int|
            0 <= j < entries.len() && (#[trigger] entries[j]).path == kept(entries)[i]
                && entries[j].is_file && !entries[j].ignored,
    decreases entries.len(),
{
    let front = entries.drop_last();
    if entries.last().is_file && !entries.last().ignored && i == kept(front).len() {
        assert(entries[entries.len() - 1].path == kept(entries)[i]);
    } else {
        lemma_kept_not_ignored(front, i);
        let j = choose|j: int|
            0 <= j < front.len() && (#[trigger] front[j]).path == kept(front)[i]
                && front[j].is_file && !front[j].ignored;
        assert(entries[j] == front[j]);
    }
}

/// Whether the cache is asked about the files of a snapshot: only a cache
/// that is in use and holds something is. `state_empty` is `None` where no
/// cache is in use, and else says whether the cache is empty.
pub fn wants_lookup(state_empty: Option<bool>) -> (r: bool)
    ensures
        r == (state_empty == Some(false)),
{
    match state_empty {
        Some(empty) => !empty,
        None => false,
    }
}

/// The files of a snapshot, split by what the cache knows of them.
#[derive(Debug, Default)]
pub struct HashResults {
    /// The files that must be hashed.
    pub new: Vec<FileInfo>,
    /// The files whose identifier the cache gave.
    pub cached: Vec<(FileInfo, Oid)>,
}

/// The files of a list, each as texts and a number.
pub open spec fn file_views(files: Seq<FileInfo>) -> Seq<FileInfoView> {
    files.map_values(|f: FileInfo| f@)
}

/// The files of a list with their identifiers, as texts and numbers.
pub open spec fn hashed_views(files: Seq<(FileInfo, Oid)>) -> Seq<(FileInfoView, Seq<char>)> {
    files.map_values(|p: (FileInfo, Oid)| (p.0@, p.1@))
}

/// Whether the cache answers for a file: it holds a value for the file's
/// path, stored under the fingerprint that the file has now.
pub open spec fn is_hit(found: Map<Seq<char>, StateValueView>, file: FileInfoView) -> bool {
    found.contains_key(file.path) && found[file.path].checksum == file.checksum
}

/// The files that the cache answers for, in order, each with the identifier
/// that the cache holds.
pub open spec fn hits(files: Seq<FileInfoView>, found: Map<Seq<char>, StateValueView>) -> Seq<
    (FileInfoView, Seq<char>),
>
    decreases files.len(),
{
    if files.len() == 0 {
        Seq::empty()
    } else if is_hit(found, files.last()) {
        hits(files.drop_last(), found).push((files.last(), found[files.last().path].oid))
    } else {
        hits(files.drop_last(), found)
    }
}

/// The files that the cache does not answer for, in order.
pub open spec fn misses(files: Seq<FileInfoView>, found: Map<Seq<char>, StateValueView>) -> Seq<
    FileInfoView,
>
    decreases files.len(),
{
    if files.len() == 0 {
        Seq::empty()
    } else if is_hit(found, files.last()) {
        misses(files.drop_last(), found)
    } else {
        misses(files.drop_last(), found).push(files.last())
    }
}

/// What a cache that may be missing has found; a missing one has found
/// nothing.
pub open spec fn found_map(found: Option<&PathMap<StateValue>>) -> Map<Seq<char>, StateValueView> {
    match found {
        Some(m) => m@,
        None => Map::empty(),
    }
}

/// Splits the files of a snapshot by what the cache found for their paths. A
/// file is cached where the cache holds its path under the fingerprint that
/// the file has now, and its identifier is then the one that the cache
/// holds; every other file is new. `found` is `None` where no cache is used
/// or the cache is empty.
pub fn get_hashes(file_infos: Vec<FileInfo>, found: Option<&PathMap<StateValue>>) -> (r:
    HashResults)
    ensures
        file_views(r.new@) == misses(file_views(file_infos@), found_map(found)),
        hashed_views(r.cached@) == hits(file_views(file_infos@), found_map(found)),
{
    let mut new: Vec<FileInfo> = Vec::new();
    let mut cached: Vec<(FileInfo, Oid)> = Vec::new();
    let ghost all = file_views(file_infos@);
    let ghost known = found_map(found);
    let ghost listing = file_infos@;
    assert(all.take(0) =~= Seq::<FileInfoView>::empty());
    for file_info in it: file_infos
        invariant
            it.seq() == listing,
            all == file_views(listing),
            known == found_map(found),
            file_views(new@) =~= misses(all.take(it.index() as int), known),
            hashed_views(cached@) =~= hits(all.take(it.index() as int), known),
    {
        let ghost n = it.index() as int;
        proof {
            assert(all.take(n + 1).drop_last() =~= all.take(n));
            assert(all.take(n + 1).last() == file_info@);
        }
        let oid: Option<Oid> = match found {
            Some(m) => cached_oid(&file_info, m.get(file_info.path.as_str())),
            None => None,
        };
        match oid {
            Some(o) => {
                let ghost before = cached@;
                let ghost pair = (file_info@, o@);
                cached.push((file_info, o));
                assert(hashed_views(cached@) =~= hashed_views(before).push(pair));
            },
            None => {
                let ghost before = new@;
                let ghost v = file_info@;
                new.push(file_info);
                assert(file_views(new@) =~= file_views(before).push(v));
            },
        }
    }
    assert(all.take(all.len() as int) =~= all);
    HashResults { new, cached }
}

/// The identifier that the cache gives for a file: that of the value found
/// for the file's path, if one was found and it was stored under the
/// fingerprint that the file has now. Then the file is not read.
pub fn cached_oid(file_info: &FileInfo, found: Option<&StateValue>) -> (oid: Option<Oid>)
    ensures
        match oid {
            Some(o) => found matches Some(v) && v.checksum@ == file_info.checksum@ && o@
                == v.hash_info.oid@,
            None => found matches Some(v) ==> v.checksum@ != file_info.checksum@,
        },
{
    match found {
        Some(v) => {
            if same(v.checksum.as_str(), file_info.checksum.as_str()) {
                Some(v.hash_info.oid.clone())
            } else {
                None
            }
        },
        None => None,
    }
}

/// What the cache is to hold for a file that was hashed.
pub open spec fn state_of(file: FileInfoView, oid: Seq<char>) -> StateValueView {
    StateValueView { checksum: file.checksum, size: file.size, oid }
}

/// What the cache is to hold for a file that was hashed: the fingerprint
/// under which it was hashed, its size, and its identifier.
pub fn state_value(file_info: &FileInfo, oid: &str) -> (v: StateValue)
    ensures
        v@ == state_of(file_info@, oid@),
{
    StateValue {
        checksum: file_info.checksum.clone(),
        size: file_info.size,
        hash_info: StateHash { oid: oid.to_owned() },
    }
}

/// The rows of a list, each as a key and a cache value.
pub open spec fn row_views(rows: Seq<(String, StateValue)>) -> Seq<(Seq<char>, StateValueView)> {
    rows.map_values(|r: (String, StateValue)| (r.0@, r.1@))
}

/// The rows that go into the cache for the files that were hashed: one for
/// each, in order, keyed by the file's path.
pub fn set_hashes(entries: &Vec<(FileInfo, Oid)>) -> (rows: Vec<(String, StateValue)>)
    ensures
        row_views(rows@) == hashed_views(entries@).map_values(
            |p: (FileInfoView, Seq<char>)| (p.0.path, state_of(p.0, p.1)),
        ),
{
    let mut rows: Vec<(String, StateValue)> = Vec::new();
    let mut i: usize = 0;
    while i < entries.len()
        invariant
            i <= entries.len(),
            row_views(rows@) =~= hashed_views(entries@).take(i as int).map_values(
                |p: (FileInfoView, Seq<char>)| (p.0.path, state_of(p.0, p.1)),
            ),
        decreases entries.len() - i,
    {
        let file_info = &entries[i].0;
        let ghost before = rows@;
        let value = state_value(file_info, entries[i].1.as_str());
        rows.push((file_info.path.clone(), value));
        assert(row_views(rows@) =~= row_views(before).push(
            (file_info.path@, state_of(file_info@, entries[i as int].1@)),
        ));
        i += 1;
    }
    assert(hashed_views(entries@).take(i as int) =~= hashed_views(entries@));
    rows
}

/// All files of a snapshot with their identifiers: those that the cache
/// answered for, then those that were hashed.
pub fn get_or_hash_files(cached: Vec<(FileInfo, Oid)>, hashed: Vec<(FileInfo, Oid)>) -> (all: Vec<
    (FileInfo, Oid),
>)
    ensures
        hashed_views(all@) == hashed_views(cached@) + hashed_views(hashed@),
{
    let mut all = cached;
    let mut rest = hashed;
    all.append(&mut rest);
    assert(hashed_views(all@) =~= hashed_views(cached@) + hashed_views(hashed@));
    all
}

/// The sum of the sizes of `files`.
pub open spec fn size_sum(files: Seq<FileInfoView>) -> nat
    decreases files.len(),
{
    if files.len() == 0 {
        0
    } else {
        size_sum(files.drop_last()) + files.last().size as nat
    }
}

/// The total size of the files of a snapshot, or `None` where the sum does
/// not fit 64 bits.
pub fn total_size(files: &Vec<FileInfo>) -> (total: Option<u64>)
    ensures
        match total {
            Some(n) => n == size_sum(file_views(files@)),
            None => size_sum(file_views(files@)) > u64::MAX,
        },
{
    let ghost all = file_views(files@);
    let mut total: u64 = 0;
    let mut i: usize = 0;
    assert(all.take(0) =~= Seq::<FileInfoView>::empty());
    while i < files.len()
        invariant
            i <= files.len(),
            all == file_views(files@),
            total == size_sum(all.take(i as int)),
        decreases files.len() - i,
    {
        proof {
            assert(all.take(i + 1).drop_last() =~= all.take(i as int));
            assert(all.take(i + 1).last() == files[i as int]@);
            lemma_size_sum_grows(all, i + 1);
        }
        match total.checked_add(files[i].size) {
            Some(n) => {
                total = n;
            },
            None => {
                return None;
            },
        }
        i += 1;
    }
    assert(all.take(i as int) =~= all);
    Some(total)
}

proof fn lemma_size_sum_grows(files: Seq<FileInfoView>, n: int)
    requires
        0 <= n <= files.len(),
    ensures
        size_sum(files.take(n)) <= size_sum(files),
    decreases files.len() - n,
{
    if n < files.len() {
        assert(files.take(n + 1).drop_last() =~= files.take(n));
        lemma_size_sum_grows(files, n + 1);
    } else {
        assert(files.take(n) =~= files);
    }
}

/// Where a file lies below `root`, as a tree writes it; `None` for a path
/// that does not lie below `root`.
pub open spec fn relpath_of(root: Seq<char>, path: Seq<char>) -> Option<Seq<char>> {
    match stripped_path(path, root) {
        Some(rest) => Some(posix_form(rest)),
        None => None,
    }
}

/// The entries of a tree for the given files, in the order of the files;
/// `None` if one of them does not lie below `root`.
pub open spec fn entries_below(root: Seq<char>, files: Seq<(FileInfoView, Seq<char>)>) -> Option<
    Seq<EntryView>,
>
    decreases files.len(),
{
    if files.len() == 0 {
        Some(Seq::empty())
    } else {
        match (entries_below(root, files.drop_last()), relpath_of(root, files.last().0.path)) {
            (Some(front), Some(relpath)) => Some(front.push((relpath, files.last().1))),
            _ => None,
        }
    }
}

/// Builds the tree of the given files below `root`: one entry for each file,
/// the entries in order, and in strictly rising order of path if no two
/// files have the same path. If a file does not lie below `root` there is no
/// tree, and the error names such a file.
pub fn build_tree_from_entries(root: &str, file_infos_with_oids: Vec<(FileInfo, Oid)>) -> (r:
    Result<Tree, BuildError>)
    ensures
        match r {
            Ok(tree) => {
                &&& entries_below(root@, hashed_views(file_infos_with_oids@)) matches Some(entries)
                &&& sorted(tree@)
                &&& tree@.to_multiset() == entries.to_multiset()
                &&& distinct_paths(tree@) ==> strictly_sorted(tree@)
            },
            Err(BuildError::StripPrefixError(path)) => {
                &&& entries_below(root@, hashed_views(file_infos_with_oids@)) is None
                &&& stripped_path(path@, root@) is None
            },
        },
{
    let mut entries: Vec<TreeEntry> = Vec::new();
    let ghost all = hashed_views(file_infos_with_oids@);
    let ghost listing = file_infos_with_oids@;
    assert(all.take(0) =~= Seq::<(FileInfoView, Seq<char>)>::empty());
    for pair in it: file_infos_with_oids
        invariant
            it.seq() == listing,
            all == hashed_views(listing),
            entries_below(root@, all.take(it.index() as int)) == Some(entry_views(entries@)),
    {
        let ghost n = it.index() as int;
        proof {
            assert(all.take(n + 1).drop_last() =~= all.take(n));
            assert(all.take(n + 1).last() == (pair.0@, pair.1@));
        }
        let (file_info, oid) = pair;
        match strip_prefix(file_info.path.as_str(), root) {
            Some(rest) => {
                let ghost before = entries@;
                let relpath = to_posix(rest.as_str());
                let ghost added = (relpath@, oid@);
                entries.push(TreeEntry { relpath, oid });
                assert(entry_views(entries@) =~= entry_views(before).push(added));
            },
            None => {
                proof {
                    lemma_entries_below_fails(root@, all, n + 1);
                }
                return Err(BuildError::StripPrefixError(file_info.path));
            },
        }
    }
    assert(all.take(all.len() as int) =~= all);
    sort_entries(&mut entries);
    proof {
        if distinct_paths(entry_views(entries@)) {
            lemma_sorted_distinct_is_strict(entry_views(entries@));
        }
    }
    Ok(Tree { entries })
}

proof fn lemma_entries_below_fails(root: Seq<char>, files: Seq<(FileInfoView, Seq<char>)>, n: int)
    requires
        0 <= n <= files.len(),
        entries_below(root, files.take(n)) is None,
    ensures
        entries_below(root, files) is None,
    decreases files.len() - n,
{
    if n < files.len() {
        assert(files.take(n + 1).drop_last() =~= files.take(n));
        lemma_entries_below_fails(root, files, n + 1);
    } else {
        assert(files.take(n) =~= files);
    }
}

/// The entry of a file below `root`, whatever its path.
pub open spec fn entry_below(root: Seq<char>, file: (FileInfoView, Seq<char>)) -> EntryView {
    match relpath_of(root, file.0.path) {
        Some(relpath) => (relpath, file.1),
        None => (Seq::empty(), file.1),
    }
}

proof fn lemma_entries_below_maps(root: Seq<char>, files: Seq<(FileInfoView, Seq<char>)>)
    requires
        entries_below(root, files) is Some,
    ensures
        entries_below(root, files) == Some(
            files.map_values(|f: (FileInfoView, Seq<char>)| entry_below(root, f)),
        ),
    decreases files.len(),
{
    let mapped = files.map_values(|f: (FileInfoView, Seq<char>)| entry_below(root, f));
    if files.len() == 0 {
        assert(mapped =~= Seq::empty());
    } else {
        lemma_entries_below_maps(root, files.drop_last());
        let front = files.drop_last().map_values(
            |f: (FileInfoView, Seq<char>)| entry_below(root, f),
        );
        assert(mapped =~= front.push(entry_below(root, files.last())));
    }
}

/// Lists that hold the same items, each as often, still do so after every
/// item was mapped.
#[verifier::rlimit(40)]
pub proof fn lemma_map_keeps_multiset<A, B>(first: Seq<A>, second: Seq<A>, f: spec_fn(A) -> B)
    requires
        first.to_multiset() == second.to_multiset(),
    ensures
        first.map_values(f).to_multiset() == second.map_values(f).to_multiset(),
    decreases first.len(),
{
    broadcast use vstd::seq_lib::group_to_multiset_ensures;

    vstd::seq_lib::to_multiset_len(first);
    vstd::seq_lib::to_multiset_len(second);
    if first.len() == 0 {
        assert(first.map_values(f) =~= second.map_values(f));
    } else {
        let x = first.last();
        let front = first.drop_last();
        assert(first =~= front.push(x));
        assert(first.to_multiset().contains(x));
        assert(second.contains(x));
        let j = choose|j: int| 0 <= j < second.len() && second[j] == x;
        let rest = second.remove(j);
        assert(front.to_multiset() =~= first.to_multiset().remove(x)) by {
            assert(front =~= first.remove(first.len() - 1));
        }
        assert(rest.to_multiset() =~= second.to_multiset().remove(x));
        lemma_map_keeps_multiset(front, rest, f);
        assert(first.map_values(f) =~= front.map_values(f).push(f(x)));
        assert(second.map_values(f).remove(j) =~= rest.map_values(f));
        assert(second.map_values(f).to_multiset() =~= rest.map_values(f).to_multiset().insert(
            f(x),
        )) by {
            let m = second.map_values(f);
            assert(m.remove(j).to_multiset() =~= m.to_multiset().remove(m[j]));
            assert(m.to_multiset().contains(m[j]));
        }
    }
}

/// A snapshot does not depend on the order in which its files were found or
/// hashed. Two trees built below one root, each from a list of files with
/// their identifiers, are the same tree with the same identifier if the two
/// lists hold the same files, each as often, in whatever order.
pub proof fn lemma_build_deterministic(
    root: Seq<char>,
    first: Seq<(FileInfoView, Seq<char>)>,
    second: Seq<(FileInfoView, Seq<char>)>,
    tree1: Seq<EntryView>,
    tree2: Seq<EntryView>,
)
    requires
        first.to_multiset() == second.to_multiset(),
        sorted(tree1),
        entries_below(root, first) matches Some(entries) && tree1.to_multiset()
            == entries.to_multiset(),
        sorted(tree2),
        entries_below(root, second) matches Some(entries) && tree2.to_multiset()
            == entries.to_multiset(),
    ensures
        tree1 == tree2,
        tree_oid(tree1) == tree_oid(tree2),
{
    lemma_entries_below_maps(root, first);
    lemma_entries_below_maps(root, second);
    lemma_map_keeps_multiset(first, second, |f: (FileInfoView, Seq<char>)| entry_below(root, f));
    lemma_sorted_unique(tree1, tree2);
}

/// Each of `files` with the identifier that hashing its content gives.
pub open spec fn with_content(
    files: Seq<FileInfoView>,
    content: spec_fn(Seq<char>) -> Seq<char>,
) -> Seq<(FileInfoView, Seq<char>)> {
    files.map_values(|f: FileInfoView| (f, content(f.path)))
}

/// Whether the cache is right about `files`: where it answers for a file, the
/// identifier that it holds is the one that hashing the file gives.
pub open spec fn sound_cache(
    files: Seq<FileInfoView>,
    found: Map<Seq<char>, StateValueView>,
    content: spec_fn(Seq<char>) -> Seq<char>,
) -> bool {
    forall|i: int|
        0 <= i < files.len() && is_hit(found, #[trigger] files[i]) ==> found[files[i].path].oid
            == content(files[i].path)
}

#[verifier::rlimit(40)]
proof fn lemma_split_keeps_files(
    files: Seq<FileInfoView>,
    found: Map<Seq<char>, StateValueView>,
    content: spec_fn(Seq<char>) -> Seq<char>,
)
    requires
        sound_cache(files, found, content),
    ensures
        (hits(files, found) + with_content(misses(files, found), content)).to_multiset()
            == with_content(files, content).to_multiset(),
    decreases files.len(),
{
    broadcast use vstd::seq_lib::group_to_multiset_ensures;

    if files.len() == 0 {
        assert(hits(files, found) + with_content(misses(files, found), content)
            =~= with_content(files, content));
    } else {
        let front = files.drop_last();
        let last = files.last();
        assert(sound_cache(front, found, content)) by {
            assert forall|i: int| 0 <= i < front.len() && is_hit(found, #[trigger] front[i])
                implies found[front[i].path].oid == content(front[i].path) by {
                assert(front[i] == files[i]);
            }
        }
        lemma_split_keeps_files(front, found, content);
        let h = hits(front, found);
        let m = with_content(misses(front, found), content);
        let pair = (last, content(last.path));
        assert(with_content(files, content) =~= with_content(front, content).push(pair));
        vstd::seq_lib::lemma_multiset_commutative(h, m);
        if is_hit(found, last) {
            assert(files[files.len() - 1] == last);
            assert(hits(files, found) == h.push(pair));
            vstd::seq_lib::lemma_multiset_commutative(h.push(pair), m);
        } else {
            assert(with_content(misses(files, found), content) =~= m.push(pair));
            assert(h + m.push(pair) =~= (h + m).push(pair));
        }
    }
}

/// A snapshot is the same with the cache and without it, provided the cache
/// is right about the files. With the cache, the files that it answers for
/// take its identifiers and the others are hashed; without it, every file is
/// hashed. The trees built from the two lists are the same tree, with the
/// same identifier.
pub proof fn lemma_cache_off_equivalence(
    root: Seq<char>,
    files: Seq<FileInfoView>,
    found: Map<Seq<char>, StateValueView>,
    content: spec_fn(Seq<char>) -> Seq<char>,
    with_cache: Seq<EntryView>,
    without_cache: Seq<EntryView>,
)
    requires
        sound_cache(files, found, content),
        sorted(with_cache),
        entries_below(root, hits(files, found) + with_content(misses(files, found), content))
            matches Some(entries) && with_cache.to_multiset() == entries.to_multiset(),
        sorted(without_cache),
        entries_below(root, with_content(files, content)) matches Some(entries)
            && without_cache.to_multiset() == entries.to_multiset(),
    ensures
        with_cache == without_cache,
        tree_oid(with_cache) == tree_oid(without_cache),
{
    let split = hits(files, found) + with_content(misses(files, found), content);
    let all = with_content(files, content);
    lemma_split_keeps_files(files, found, content);
    lemma_entries_below_maps(root, split);
    lemma_entries_below_maps(root, all);
    lemma_map_keeps_multiset(split, all, |f: (FileInfoView, Seq<char>)| entry_below(root, f));
    lemma_sorted_unique(with_cache, without_cache);
}

} // verus!
