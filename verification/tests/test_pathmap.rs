use dvc_data::pathmap::PathMap;

fn keys(map: &PathMap<String>) -> Vec<String> {
    map.entries().iter().map(|e| e.0.clone()).collect()
}

#[test]
fn new_map_is_empty() {
    let map: PathMap<String> = PathMap::new();
    assert!(map.is_empty());
    assert_eq!(map.len(), 0);
    assert_eq!(map.get("a"), None);
    assert!(!map.contains_key("a"));
}

#[test]
fn insert_keeps_path_order() {
    let mut map: PathMap<String> = PathMap::new();
    for key in ["b", "a.b", "c", "a/b", "a"] {
        map.insert(key.to_string(), key.to_uppercase());
    }
    assert_eq!(keys(&map), vec!["a", "a/b", "a.b", "b", "c"]);
    assert_eq!(map.len(), 5);
    assert_eq!(map.get("a/b"), Some(&"A/B".to_string()));
    assert_eq!(map.get("a.b"), Some(&"A.B".to_string()));
    assert_eq!(map.get("d"), None);
    assert!(map.contains_key("c"));
    assert!(!map.is_empty());
}

#[test]
fn insert_replaces_the_value_of_a_key() {
    let mut map: PathMap<String> = PathMap::new();
    map.insert("k".to_string(), "1".to_string());
    map.insert("k".to_string(), "2".to_string());
    assert_eq!(map.len(), 1);
    assert_eq!(map.get("k"), Some(&"2".to_string()));
}

#[test]
fn extend_prefers_the_other_map() {
    let mut left: PathMap<String> = PathMap::new();
    left.insert("a".to_string(), "left".to_string());
    left.insert("b".to_string(), "left".to_string());
    let mut right: PathMap<String> = PathMap::new();
    right.insert("b".to_string(), "right".to_string());
    right.insert("c".to_string(), "right".to_string());
    left.extend(right);
    assert_eq!(keys(&left), vec!["a", "b", "c"]);
    assert_eq!(left.get("a"), Some(&"left".to_string()));
    assert_eq!(left.get("b"), Some(&"right".to_string()));
    assert_eq!(left.get("c"), Some(&"right".to_string()));
}

#[test]
fn extend_under_adjoins_keys_to_the_root() {
    let mut base: PathMap<String> = PathMap::new();
    base.insert("root/".to_string(), "r".to_string());
    let mut other: PathMap<String> = PathMap::new();
    other.insert("x".to_string(), "1".to_string());
    other.insert("d/y".to_string(), "2".to_string());
    base.extend_under("root", other);
    assert_eq!(keys(&base), vec!["root/", "root/d/y", "root/x"]);
    assert_eq!(base.get("root/d/y"), Some(&"2".to_string()));
}

#[test]
fn many_keys_are_all_found() {
    let mut map: PathMap<bool> = PathMap::new();
    for i in (0..200).rev() {
        map.insert(format!("dir{}/file{}", i % 7, i), i % 2 == 0);
    }
    assert_eq!(map.len(), 200);
    for i in 0..200 {
        assert_eq!(map.get(&format!("dir{}/file{}", i % 7, i)), Some(&(i % 2 == 0)));
    }
    assert_eq!(map.get("dir0/file1"), None);
}
