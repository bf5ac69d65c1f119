use dvc_data::builder::{
    build_tree_from_entries, cached_oid, collect_files, get_hashes, get_or_hash_files, is_pruned,
    set_hashes, state_value, total_size, wants_lookup, BuildError, FileInfo, WalkEntry,
};
use dvc_data::fsutils::compute_checksum;
use dvc_data::hash::md5;
use dvc_data::objects::TreeEntry;
use dvc_data::pathmap::PathMap;
use dvc_data::state::{StateHash, StateValue};

fn info(path: &str, checksum: &str, size: u64) -> FileInfo {
    FileInfo {
        checksum: checksum.to_string(),
        path: path.to_string(),
        size,
    }
}

fn value(checksum: &str, size: u64, oid: &str) -> StateValue {
    StateValue {
        checksum: checksum.to_string(),
        size,
        hash_info: StateHash {
            oid: oid.to_string(),
        },
    }
}

#[test]
pub fn test_build() {
    let root = "/tmp/work";
    let bar = FileInfo::from_metadata("/tmp/work/data/bar", "1700000000.5", 11, 5);
    let baz = FileInfo::from_metadata("/tmp/work/data/baz", "1700000001.5", 12, 5);
    let files = vec![baz, bar];
    let size = total_size(&files).unwrap();
    assert_eq!(size, 10);

    let split = get_hashes(files, None);
    assert!(split.cached.is_empty());
    let hashed: Vec<(FileInfo, String)> = split
        .new
        .into_iter()
        .map(|f| {
            let content: &[u8] = if f.path.ends_with("bar") {
                b"bar\n\n"
            } else {
                b"baz\n\n"
            };
            (f, md5(content))
        })
        .collect();
    let all = get_or_hash_files(split.cached, hashed);
    let t = build_tree_from_entries(root, all).unwrap();

    let (text, oid) = t.digest().unwrap();
    assert_eq!(
        text,
        r#"[{"md5": "e5a81dd70644b5534aae9f7c32055ec3", "relpath": "data/bar"}, {"md5": "eceec35e3f3dd774244de59b1094cc59", "relpath": "data/baz"}]"#
    );
    assert_eq!(oid, "a187d325e83704a3fad49b2f2ab67d20.dir");
    assert_eq!(
        t.entries,
        vec![
            TreeEntry {
                relpath: "data/bar".to_string(),
                oid: "e5a81dd70644b5534aae9f7c32055ec3".to_string()
            },
            TreeEntry {
                relpath: "data/baz".to_string(),
                oid: "eceec35e3f3dd774244de59b1094cc59".to_string()
            },
        ]
    );
}

#[test]
fn from_metadata_fingerprints_the_stat() {
    let f = FileInfo::from_metadata("/p", "2", 1, 3);
    assert_eq!(f.path, "/p");
    assert_eq!(f.size, 3);
    assert_eq!(f.checksum, compute_checksum("2", 1, 3));
    assert_eq!(f.checksum, "127829919842468153309797267312027116502");
}

#[test]
fn control_directories_are_pruned() {
    assert!(is_pruned(".dvc"));
    assert!(is_pruned(".git"));
    assert!(is_pruned(".hg"));
    assert!(!is_pruned(".svn"));
    assert!(!is_pruned("git"));
    assert!(!is_pruned(".dvcignore"));
    assert!(!is_pruned(""));
}

#[test]
fn ignored_entries_and_directories_are_not_collected() {
    let entries = vec![
        WalkEntry {
            path: "/r/a".to_string(),
            is_file: true,
            ignored: false,
        },
        WalkEntry {
            path: "/r/d".to_string(),
            is_file: false,
            ignored: false,
        },
        WalkEntry {
            path: "/r/secret".to_string(),
            is_file: true,
            ignored: true,
        },
        WalkEntry {
            path: "/r/d/b".to_string(),
            is_file: true,
            ignored: false,
        },
    ];
    assert_eq!(collect_files(&entries), vec!["/r/a", "/r/d/b"]);
    assert!(collect_files(&Vec::new()).is_empty());
}

#[test]
fn ignored_file_reaches_neither_tree_nor_cache() {
    let entries = vec![
        WalkEntry {
            path: "/r/keep".to_string(),
            is_file: true,
            ignored: false,
        },
        WalkEntry {
            path: "/r/skip".to_string(),
            is_file: true,
            ignored: true,
        },
    ];
    let files: Vec<FileInfo> = collect_files(&entries)
        .iter()
        .map(|p| FileInfo::from_metadata(p, "1", 1, 1))
        .collect();
    let split = get_hashes(files, None);
    let hashed: Vec<(FileInfo, String)> =
        split.new.into_iter().map(|f| (f, "0a".to_string())).collect();
    let rows = set_hashes(&hashed);
    assert_eq!(rows.len(), 1);
    assert_eq!(rows[0].0, "/r/keep");
    let tree = build_tree_from_entries("/r", hashed).unwrap();
    assert_eq!(tree.entries.len(), 1);
    assert_eq!(tree.entries[0].relpath, "keep");
}

#[test]
fn cache_hit_reuses_the_stored_oid() {
    let p = FileInfo::from_metadata("/r/p", "1700000000", 7, 4);
    let mut found: PathMap<StateValue> = PathMap::new();
    found.insert("/r/p".to_string(), value(&p.checksum, 4, "deadbeef"));
    let split = get_hashes(vec![p.clone()], Some(&found));
    assert!(split.new.is_empty());
    assert_eq!(split.cached, vec![(p, "deadbeef".to_string())]);
}

#[test]
fn changed_fingerprint_is_a_miss() {
    let p = FileInfo::from_metadata("/r/p", "1700000000", 7, 4);
    let q = info("/r/q", "2", 1);
    let mut found: PathMap<StateValue> = PathMap::new();
    found.insert("/r/p".to_string(), value("1", 4, "deadbeef"));
    found.insert("/r/other".to_string(), value("2", 1, "cafe"));
    let split = get_hashes(vec![p.clone(), q.clone()], Some(&found));
    assert!(split.cached.is_empty());
    assert_eq!(split.new, vec![p, q]);
}

#[test]
fn split_keeps_the_order_of_files() {
    let files = vec![
        info("/r/a", "1", 1),
        info("/r/b", "2", 1),
        info("/r/c", "3", 1),
        info("/r/d", "4", 1),
    ];
    let mut found: PathMap<StateValue> = PathMap::new();
    found.insert("/r/d".to_string(), value("4", 1, "dd"));
    found.insert("/r/b".to_string(), value("2", 1, "bb"));
    found.insert("/r/c".to_string(), value("x", 1, "cc"));
    let split = get_hashes(files, Some(&found));
    assert_eq!(split.new, vec![info("/r/a", "1", 1), info("/r/c", "3", 1)]);
    assert_eq!(
        split.cached,
        vec![
            (info("/r/b", "2", 1), "bb".to_string()),
            (info("/r/d", "4", 1), "dd".to_string())
        ]
    );
}

#[test]
fn cached_oid_needs_a_matching_fingerprint() {
    let f = info("/r/p", "42", 1);
    assert_eq!(cached_oid(&f, None), None);
    assert_eq!(cached_oid(&f, Some(&value("41", 1, "aa"))), None);
    assert_eq!(
        cached_oid(&f, Some(&value("42", 9, "aa"))),
        Some("aa".to_string())
    );
}

#[test]
fn state_value_records_fingerprint_size_and_oid() {
    let f = info("/r/p", "42", 17);
    assert_eq!(state_value(&f, "aa"), value("42", 17, "aa"));
}

#[test]
fn set_hashes_makes_one_row_for_each_file() {
    let hashed = vec![
        (info("/r/a", "1", 10), "aa".to_string()),
        (info("/r/b", "2", 20), "bb".to_string()),
    ];
    assert_eq!(
        set_hashes(&hashed),
        vec![
            ("/r/a".to_string(), value("1", 10, "aa")),
            ("/r/b".to_string(), value("2", 20, "bb"))
        ]
    );
    assert!(set_hashes(&Vec::new()).is_empty());
}

#[test]
fn cached_files_come_before_hashed_ones() {
    let cached = vec![(info("/r/b", "2", 1), "bb".to_string())];
    let hashed = vec![(info("/r/a", "1", 1), "aa".to_string())];
    let all = get_or_hash_files(cached.clone(), hashed.clone());
    assert_eq!(all, vec![cached[0].clone(), hashed[0].clone()]);
}

#[test]
fn total_size_adds_up_or_overflows() {
    assert_eq!(total_size(&Vec::new()), Some(0));
    assert_eq!(
        total_size(&vec![info("a", "1", 5), info("b", "2", 5)]),
        Some(10)
    );
    assert_eq!(
        total_size(&vec![info("a", "1", u64::MAX), info("b", "2", 0)]),
        Some(u64::MAX)
    );
    assert_eq!(
        total_size(&vec![info("a", "1", u64::MAX), info("b", "2", 1)]),
        None
    );
}

#[test]
fn tree_is_sorted_by_path_components() {
    let files = vec![
        (info("/r/data-old/x", "1", 1), "03".to_string()),
        (info("/r/data/y", "2", 1), "02".to_string()),
        (info("/r/data.txt", "3", 1), "01".to_string()),
        (info("/r/data/sub/z", "4", 1), "04".to_string()),
        (info("/r/a", "5", 1), "05".to_string()),
    ];
    let tree = build_tree_from_entries("/r", files).unwrap();
    let paths: Vec<&str> = tree.entries.iter().map(|e| e.relpath.as_str()).collect();
    assert_eq!(
        paths,
        vec!["a", "data/sub/z", "data/y", "data-old/x", "data.txt"]
    );
    let oids: Vec<&str> = tree.entries.iter().map(|e| e.oid.as_str()).collect();
    assert_eq!(oids, vec!["05", "04", "02", "03", "01"]);
}

#[test]
fn tree_does_not_depend_on_the_order_of_files() {
    let a = (info("/r/a", "1", 1), "aa".to_string());
    let b = (info("/r/b/c", "2", 1), "bb".to_string());
    let c = (info("/r/b.c", "3", 1), "cc".to_string());
    let one = build_tree_from_entries("/r", vec![a.clone(), b.clone(), c.clone()]).unwrap();
    let two = build_tree_from_entries("/r", vec![c, a, b]).unwrap();
    assert_eq!(one.entries, two.entries);
    assert_eq!(one.digest().unwrap(), two.digest().unwrap());
}

#[test]
fn tree_is_the_same_with_and_without_cache() {
    let files = vec![info("/r/a", "1", 1), info("/r/b", "2", 1), info("/r/c", "3", 1)];
    let content = |f: &FileInfo| md5(f.path.as_bytes());
    let mut found: PathMap<StateValue> = PathMap::new();
    found.insert("/r/b".to_string(), value("2", 1, &content(&files[1])));
    found.insert("/r/c".to_string(), value("stale", 1, "00"));

    let split = get_hashes(files.clone(), Some(&found));
    assert_eq!(split.cached.len(), 1);
    let hashed: Vec<(FileInfo, String)> = split
        .new
        .into_iter()
        .map(|f| {
            let oid = content(&f);
            (f, oid)
        })
        .collect();
    let with_cache =
        build_tree_from_entries("/r", get_or_hash_files(split.cached, hashed)).unwrap();

    let split = get_hashes(files, None);
    let hashed: Vec<(FileInfo, String)> = split
        .new
        .into_iter()
        .map(|f| {
            let oid = content(&f);
            (f, oid)
        })
        .collect();
    let without_cache =
        build_tree_from_entries("/r", get_or_hash_files(split.cached, hashed)).unwrap();

    assert_eq!(with_cache.entries, without_cache.entries);
    assert_eq!(with_cache.digest().unwrap(), without_cache.digest().unwrap());
}

#[test]
fn entries_of_one_path_are_ordered_by_oid() {
    let files = vec![
        (info("/r/a", "1", 1), "bb".to_string()),
        (info("/r/a", "1", 1), "aa".to_string()),
    ];
    let tree = build_tree_from_entries("/r", files).unwrap();
    let oids: Vec<&str> = tree.entries.iter().map(|e| e.oid.as_str()).collect();
    assert_eq!(oids, vec!["aa", "bb"]);
}

#[test]
fn file_outside_the_root_is_an_error() {
    let files = vec![
        (info("/r/a", "1", 1), "aa".to_string()),
        (info("/elsewhere/b", "2", 1), "bb".to_string()),
    ];
    match build_tree_from_entries("/r", files) {
        Err(BuildError::StripPrefixError(path)) => assert_eq!(path, "/elsewhere/b"),
        Ok(_) => panic!("an error was expected"),
    }
}

#[test]
fn empty_snapshot_is_the_empty_tree() {
    let tree = build_tree_from_entries("/r", Vec::new()).unwrap();
    assert!(tree.entries.is_empty());
}

#[test]
fn only_a_cache_that_holds_something_is_asked() {
    assert!(wants_lookup(Some(false)));
    assert!(!wants_lookup(Some(true)));
    assert!(!wants_lookup(None));
}
