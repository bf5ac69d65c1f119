use dvc_data::objects::{Tree, TreeEntry};
use dvc_data::odb::{is_tree, oid_to_path, Odb, Stored};

fn entry(relpath: &str, oid: &str) -> TreeEntry {
    TreeEntry {
        relpath: relpath.to_string(),
        oid: oid.to_string(),
    }
}

fn sample_tree() -> Tree {
    Tree {
        entries: vec![
            entry("data/bar", "e5a81dd70644b5534aae9f7c32055ec3"),
            entry("data/baz", "eceec35e3f3dd774244de59b1094cc59"),
        ],
    }
}

#[test]
fn serialize_is_canonical() {
    let text = sample_tree().serialize().unwrap();
    assert_eq!(
        text,
        r#"[{"md5": "e5a81dd70644b5534aae9f7c32055ec3", "relpath": "data/bar"}, {"md5": "eceec35e3f3dd774244de59b1094cc59", "relpath": "data/baz"}]"#
    );
}

#[test]
fn digest_of_sample_tree() {
    let (text, oid) = sample_tree().digest().unwrap();
    assert_eq!(text, sample_tree().serialize().unwrap());
    assert_eq!(oid, "a187d325e83704a3fad49b2f2ab67d20.dir");
}

#[test]
fn empty_tree_serializes_to_empty_array() {
    let tree = Tree::default();
    let (text, oid) = tree.digest().unwrap();
    assert_eq!(text, "[]");
    assert_eq!(oid, "d751713988987e9331980363e24189ce.dir");
}

#[test]
fn single_entry_has_no_separator() {
    let tree = Tree {
        entries: vec![entry("a", "0")],
    };
    assert_eq!(tree.serialize().unwrap(), r#"[{"md5": "0", "relpath": "a"}]"#);
}

#[test]
fn serialize_escapes_strings_and_leaves_their_commas_alone() {
    let tree = Tree {
        entries: vec![entry("a\"b\\c\n\u{1}\t,d:e é", "x")],
    };
    assert_eq!(
        tree.serialize().unwrap(),
        "[{\"md5\": \"x\", \"relpath\": \"a\\\"b\\\\c\\n\\u0001\\t,d:e é\"}]"
    );
}

#[test]
fn serialize_agrees_with_serde_json_on_each_string() {
    let tree = Tree {
        entries: vec![entry("dir/\u{8}\u{c}\r\u{1f}\u{7f}", "o\"id")],
    };
    let expected = format!(
        "[{{\"md5\": {}, \"relpath\": {}}}]",
        serde_json::to_string("o\"id").unwrap(),
        serde_json::to_string("dir/\u{8}\u{c}\r\u{1f}\u{7f}").unwrap()
    );
    assert_eq!(tree.serialize().unwrap(), expected);
    assert!(expected.contains("\\b\\f\\r\\u001f\u{7f}"));
}

#[test]
fn serialize_keeps_the_order_of_entries() {
    let tree = Tree {
        entries: vec![entry("b", "2"), entry("a", "1")],
    };
    assert_eq!(
        tree.serialize().unwrap(),
        r#"[{"md5": "2", "relpath": "b"}, {"md5": "1", "relpath": "a"}]"#
    );
}

#[test]
fn oid_to_path_fans_out_by_two_characters() {
    assert_eq!(
        oid_to_path("/odb", "e5a81dd70644b5534aae9f7c32055ec3"),
        "/odb/e5/a81dd70644b5534aae9f7c32055ec3"
    );
    assert_eq!(
        oid_to_path("/odb", "a187d325e83704a3fad49b2f2ab67d20.dir"),
        "/odb/a1/87d325e83704a3fad49b2f2ab67d20.dir"
    );
}

#[test]
fn oid_to_path_of_shortest_identifier() {
    assert_eq!(oid_to_path("odb", "ab"), "odb/ab/");
    assert_eq!(oid_to_path("odb/", "abc"), "odb/ab/c");
    assert_eq!(oid_to_path("", "abc"), "ab/c");
}

#[test]
fn tree_identifiers_end_in_dir() {
    assert!(is_tree("a187d325e83704a3fad49b2f2ab67d20.dir"));
    assert!(is_tree(".dir"));
    assert!(!is_tree("a187d325e83704a3fad49b2f2ab67d20"));
    assert!(!is_tree("dir"));
    assert!(!is_tree(".dir "));
}

#[test]
fn load_object_tells_trees_from_files() {
    let odb = Odb {
        path: "/odb".to_string(),
    };
    match odb.load_object("a187d325e83704a3fad49b2f2ab67d20.dir") {
        Stored::Manifest(path) => {
            assert_eq!(path, "/odb/a1/87d325e83704a3fad49b2f2ab67d20.dir")
        }
        Stored::HashFile(_) => panic!("a tree was expected"),
    }
    match odb.load_object("e5a81dd70644b5534aae9f7c32055ec3") {
        Stored::HashFile(oid) => assert_eq!(oid, "e5a81dd70644b5534aae9f7c32055ec3"),
        Stored::Manifest(_) => panic!("a file was expected"),
    }
    match odb.load_object("") {
        Stored::HashFile(oid) => assert_eq!(oid, ""),
        Stored::Manifest(_) => panic!("a file was expected"),
    }
}
