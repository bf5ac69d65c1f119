use dvc_data::diff::{diff, diff_object, diff_root, diff_root_oid, diff_tree, Diff, State};
use dvc_data::objects::{Object, Tree, TreeEntry};
use dvc_data::pathmap::PathMap;
use dvc_data::status::{diff_obj, object_oid, status, status_git};

const BAR: &str = "e5a81dd70644b5534aae9f7c32055ec3";
const BAZ: &str = "eceec35e3f3dd774244de59b1094cc59";
const QUX: &str = "89675bad544b3380a3697cb48c17047e";

fn tree(entries: &[(&str, &str)]) -> Tree {
    Tree {
        entries: entries
            .iter()
            .map(|(relpath, oid)| TreeEntry {
                relpath: relpath.to_string(),
                oid: oid.to_string(),
            })
            .collect(),
    }
}

fn listing(map: &PathMap<String>) -> Vec<(String, String)> {
    map.entries().clone()
}

fn pairs(items: &[(&str, &str)]) -> Vec<(String, String)> {
    items
        .iter()
        .map(|(k, v)| (k.to_string(), v.to_string()))
        .collect()
}

fn old_tree() -> Tree {
    tree(&[("data/bar", BAR), ("data/baz", BAZ)])
}

fn new_tree() -> Tree {
    tree(&[("data/bar", BAR), ("data/baz", QUX), ("data/qux", QUX)])
}

#[test]
fn diff_of_modified_and_added_files() {
    let d = diff_tree(Some(old_tree()), Some(new_tree()));
    assert_eq!(
        d.modified.entries().clone(),
        vec![("data/baz".to_string(), (BAZ.to_string(), QUX.to_string()))]
    );
    assert_eq!(listing(&d.added), pairs(&[("data/qux", QUX)]));
    assert_eq!(listing(&d.unchanged), pairs(&[("data/bar", BAR)]));
    assert!(d.removed.is_empty());
    assert!(!d.is_empty());
}

#[test]
fn diff_of_removed_files() {
    let d = diff_tree(Some(new_tree()), Some(old_tree()));
    assert_eq!(listing(&d.removed), pairs(&[("data/qux", QUX)]));
    assert_eq!(
        d.modified.entries().clone(),
        vec![("data/baz".to_string(), (QUX.to_string(), BAZ.to_string()))]
    );
    assert!(d.added.is_empty());
}

#[test]
fn diff_against_missing_tree() {
    let d = diff_tree(None, Some(old_tree()));
    assert_eq!(listing(&d.added), pairs(&[("data/bar", BAR), ("data/baz", BAZ)]));
    assert!(d.removed.is_empty() && d.modified.is_empty() && d.unchanged.is_empty());
    let d = diff_tree(Some(old_tree()), None);
    assert_eq!(listing(&d.removed), pairs(&[("data/bar", BAR), ("data/baz", BAZ)]));
    assert!(d.added.is_empty() && d.modified.is_empty() && d.unchanged.is_empty());
    let d = diff_tree(None, None);
    assert!(d.is_empty() && d.unchanged.is_empty());
}

#[test]
fn diff_of_a_tree_with_itself_is_empty() {
    let d = diff_tree(Some(old_tree()), Some(old_tree()));
    assert!(d.is_empty());
    assert_eq!(d.unchanged.len(), 2);
}

#[test]
fn diff_is_complete_and_disjoint() {
    let a = tree(&[("a", "1"), ("b", "2"), ("c", "3"), ("d/e", "4")]);
    let b = tree(&[("b", "2"), ("c", "9"), ("d/f", "5"), ("z", "6")]);
    let d = diff_tree(Some(a.clone()), Some(b.clone()));
    let mut seen_new: Vec<String> = Vec::new();
    let mut seen_old: Vec<String> = Vec::new();
    for (k, _) in d.added.entries() {
        seen_new.push(k.clone());
    }
    for (k, _) in d.removed.entries() {
        seen_old.push(k.clone());
    }
    for (k, _) in d.modified.entries() {
        seen_new.push(k.clone());
        seen_old.push(k.clone());
    }
    for (k, _) in d.unchanged.entries() {
        seen_new.push(k.clone());
        seen_old.push(k.clone());
    }
    seen_new.sort();
    seen_old.sort();
    let mut new_paths: Vec<String> = b.entries.iter().map(|e| e.relpath.clone()).collect();
    let mut old_paths: Vec<String> = a.entries.iter().map(|e| e.relpath.clone()).collect();
    new_paths.sort();
    old_paths.sort();
    assert_eq!(seen_new, new_paths);
    assert_eq!(seen_old, old_paths);
    for (k, _) in d.added.entries() {
        assert!(!d.removed.contains_key(k) && !d.modified.contains_key(k));
        assert!(!d.unchanged.contains_key(k));
    }
    for (k, _) in d.modified.entries() {
        assert!(!d.removed.contains_key(k) && !d.unchanged.contains_key(k));
    }
    for (k, _) in d.removed.entries() {
        assert!(!d.unchanged.contains_key(k));
    }
}

#[test]
fn later_entry_of_a_path_counts() {
    let a = tree(&[("a", "1"), ("a", "2")]);
    let b = tree(&[("a", "2")]);
    let d = diff_tree(Some(a), Some(b));
    assert_eq!(listing(&d.unchanged), pairs(&[("a", "2")]));
    assert!(d.is_empty());
}

#[test]
fn diff_does_not_need_sorted_trees() {
    let a = tree(&[("z", "1"), ("a", "2")]);
    let b = tree(&[("m", "3"), ("a", "2"), ("z", "4")]);
    let d = diff_tree(Some(a), Some(b));
    assert_eq!(listing(&d.added), pairs(&[("m", "3")]));
    assert_eq!(listing(&d.unchanged), pairs(&[("a", "2")]));
    assert_eq!(
        d.modified.entries().clone(),
        vec![("z".to_string(), ("1".to_string(), "4".to_string()))]
    );
}

#[test]
fn root_oid_is_classified() {
    assert!(matches!(diff_root_oid(None, Some("n")), State::Added("n")));
    assert!(matches!(
        diff_root_oid(Some("o"), Some("n")),
        State::Modified("o", "n")
    ));
    assert!(matches!(diff_root_oid(Some("o"), None), State::Removed("o")));
    assert!(matches!(
        diff_root_oid(Some("o"), Some("o")),
        State::Unchanged("o")
    ));
    assert!(matches!(diff_root_oid(None, None), State::Unchanged("")));
}

#[test]
fn root_of_a_tree_gets_a_trailing_separator() {
    let d = diff_root("data", None, Some("abc.dir"));
    assert_eq!(listing(&d.added), pairs(&[("data/", "abc.dir")]));
    let d = diff_root("data", None, Some("abc"));
    assert_eq!(listing(&d.added), pairs(&[("data", "abc")]));
}

#[test]
fn root_diff_lists_one_path() {
    let d = diff_root("data", Some("old.dir"), Some("new"));
    assert_eq!(
        d.modified.entries().clone(),
        vec![("data".to_string(), ("old.dir".to_string(), "new".to_string()))]
    );
    assert!(d.added.is_empty() && d.removed.is_empty() && d.unchanged.is_empty());
    let d = diff_root("data", Some("old.dir"), None);
    assert_eq!(listing(&d.removed), pairs(&[("data/", "old.dir")]));
    let d = diff_root("data", Some("same"), Some("same"));
    assert_eq!(listing(&d.unchanged), pairs(&[("data", "same")]));
    assert!(d.is_empty());
    let d = diff_root("data", None, None);
    assert_eq!(listing(&d.unchanged), pairs(&[("data", "")]));
}

#[test]
fn objects_that_are_no_trees_have_no_paths() {
    let d = diff_object(
        Some(Object::HashFile("a".to_string())),
        Some(Object::HashFile("b".to_string())),
    );
    assert!(d.is_empty() && d.unchanged.is_empty());
    let d = diff_object(None, Some(Object::HashFile("b".to_string())));
    assert!(d.is_empty() && d.unchanged.is_empty());
    let d = diff_object(None, None);
    assert!(d.is_empty() && d.unchanged.is_empty());
}

#[test]
fn file_against_tree_counts_as_empty_tree() {
    let d = diff_object(
        Some(Object::HashFile("a".to_string())),
        Some(Object::Tree(old_tree())),
    );
    assert_eq!(listing(&d.added), pairs(&[("data/bar", BAR), ("data/baz", BAZ)]));
    let d = diff_object(Some(Object::Tree(old_tree())), None);
    assert_eq!(listing(&d.removed), pairs(&[("data/bar", BAR), ("data/baz", BAZ)]));
    let d = diff_object(Some(Object::Tree(old_tree())), Some(Object::Tree(new_tree())));
    assert_eq!(listing(&d.added), pairs(&[("data/qux", QUX)]));
}

#[test]
fn merge_prefers_the_second_difference() {
    let mut first = Diff::default();
    first.added.insert("a".to_string(), "1".to_string());
    first.removed.insert("r".to_string(), "1".to_string());
    let mut second = Diff::default();
    second.added.insert("a".to_string(), "2".to_string());
    second.added.insert("b".to_string(), "3".to_string());
    second
        .modified
        .insert("m".to_string(), ("1".to_string(), "2".to_string()));
    second.unchanged.insert("u".to_string(), "4".to_string());
    let d = first.merge(second);
    assert_eq!(listing(&d.added), pairs(&[("a", "2"), ("b", "3")]));
    assert_eq!(listing(&d.removed), pairs(&[("r", "1")]));
    assert_eq!(listing(&d.unchanged), pairs(&[("u", "4")]));
    assert_eq!(d.modified.len(), 1);
}

#[test]
fn is_empty_ignores_unchanged_paths() {
    let mut d = Diff::default();
    assert!(d.is_empty());
    d.unchanged.insert("u".to_string(), "1".to_string());
    assert!(d.is_empty());
    d.removed.insert("r".to_string(), "1".to_string());
    assert!(!d.is_empty());
}

#[test]
fn diff_joins_root_and_paths() {
    let old = Object::Tree(old_tree());
    let new = Object::Tree(new_tree());
    let old_oid = object_oid(&old);
    let new_oid = object_oid(&new);
    assert_eq!(old_oid, "a187d325e83704a3fad49b2f2ab67d20.dir");
    let d = diff("root", Some(&old_oid), Some(&new_oid), Some(old), Some(new));
    assert_eq!(listing(&d.added), pairs(&[("root/data/qux", QUX)]));
    assert_eq!(listing(&d.unchanged), pairs(&[("root/data/bar", BAR)]));
    let modified: Vec<String> = d.modified.entries().iter().map(|e| e.0.clone()).collect();
    assert_eq!(modified, vec!["root/", "root/data/baz"]);
    assert_eq!(
        d.modified.get("root/"),
        Some(&(old_oid.clone(), new_oid.clone()))
    );
    assert!(d.removed.is_empty());
}

#[test]
fn diff_of_added_tree_lists_root_and_files() {
    let new = Object::Tree(old_tree());
    let new_oid = object_oid(&new);
    let d = diff("data", None, Some(&new_oid), None, Some(new));
    assert_eq!(
        listing(&d.added),
        pairs(&[
            ("data/", "a187d325e83704a3fad49b2f2ab67d20.dir"),
            ("data/data/bar", BAR),
            ("data/data/baz", BAZ)
        ])
    );
}

#[test]
fn diff_obj_rebases_without_the_root() {
    let d = diff_obj(
        "w",
        Some(Object::Tree(old_tree())),
        Some(Object::Tree(new_tree())),
    );
    assert_eq!(listing(&d.added), pairs(&[("w/data/qux", QUX)]));
    assert_eq!(d.modified.len(), 1);
    assert!(d.modified.contains_key("w/data/baz"));
}

#[test]
fn object_oid_of_file_is_the_file() {
    assert_eq!(object_oid(&Object::HashFile(BAR.to_string())), BAR);
}

#[test]
fn status_of_unchanged_data_is_empty() {
    let recorded = Object::Tree(old_tree());
    let built = Object::Tree(old_tree());
    let oid = object_oid(&recorded);
    let d = status("data", &oid, recorded, built);
    assert!(d.is_empty());
    assert_eq!(d.unchanged.get("data/"), Some(&oid));
    assert_eq!(d.unchanged.len(), 3);
}

#[test]
fn status_of_changed_data_lists_root_and_files() {
    let recorded = Object::Tree(old_tree());
    let built = Object::Tree(new_tree());
    let oid = object_oid(&recorded);
    let built_oid = object_oid(&built);
    let d = status("data", &oid, recorded, built);
    assert!(!d.is_empty());
    assert_eq!(d.modified.get("data/"), Some(&(oid, built_oid)));
    assert!(d.modified.contains_key("data/data/baz"));
    assert_eq!(listing(&d.added), pairs(&[("data/data/qux", QUX)]));
}

#[test]
fn status_git_of_single_files() {
    let d = status_git(
        "f",
        "old",
        "new",
        Object::HashFile("old".to_string()),
        Object::HashFile("new".to_string()),
    );
    assert_eq!(
        d.modified.entries().clone(),
        vec![("f".to_string(), ("old".to_string(), "new".to_string()))]
    );
    assert!(d.added.is_empty() && d.removed.is_empty() && d.unchanged.is_empty());
}
