use dvc_data::objects::{Tree, TreeEntry, TreeError};

fn entry(relpath: &str, oid: &str) -> TreeEntry {
    TreeEntry {
        relpath: relpath.to_string(),
        oid: oid.to_string(),
    }
}

fn is_rejected(text: &str) -> bool {
    matches!(Tree::load_from(text), Err(TreeError::Json(_)))
}

#[test]
pub fn test_tree_load() {
    let contents = r#"[{"md5": "e5a81dd70644b5534aae9f7c32055ec3", "relpath": "data/bar"}, {"md5": "eceec35e3f3dd774244de59b1094cc59", "relpath": "data/foo/baz"}]"#;
    let written = format!("{}\n", contents);

    let t = Tree::load_from(&written).unwrap();
    assert_eq!(
        t.entries,
        vec![
            TreeEntry {
                relpath: "data/bar".to_owned(),
                oid: "e5a81dd70644b5534aae9f7c32055ec3".to_owned()
            },
            TreeEntry {
                relpath: "data/foo/baz".to_owned(),
                oid: "eceec35e3f3dd774244de59b1094cc59".to_owned()
            },
        ]
    );
}

#[test]
fn either_key_order_is_read() {
    let t = Tree::load_from(r#"[{"relpath": "a", "md5": "1"}, {"md5": "2", "relpath": "b"}]"#)
        .unwrap();
    assert_eq!(t.entries, vec![entry("a", "1"), entry("b", "2")]);
}

#[test]
fn white_space_between_tokens_is_skipped() {
    let t = Tree::load_from(" \n[ {\t\"md5\" :\r\n\"1\" , \"relpath\":\"a\" } ,{\"md5\":\"2\",\"relpath\":\"b\"}\n]\n ")
        .unwrap();
    assert_eq!(t.entries, vec![entry("a", "1"), entry("b", "2")]);
    assert!(Tree::load_from("[]").unwrap().entries.is_empty());
    assert!(Tree::load_from(" [ \n ] ").unwrap().entries.is_empty());
}

#[test]
fn order_of_the_file_is_kept() {
    let t = Tree::load_from(r#"[{"md5": "2", "relpath": "b"}, {"md5": "1", "relpath": "a"}]"#)
        .unwrap();
    assert_eq!(t.entries, vec![entry("b", "2"), entry("a", "1")]);
}

#[test]
fn escapes_are_read() {
    let t = Tree::load_from(
        r#"[{"md5": "Aé中", "relpath": "q\"b\\s\/\b\f\n\r\t😀 é"}]"#,
    )
    .unwrap();
    assert_eq!(
        t.entries,
        vec![entry("q\"b\\s/\u{8}\u{c}\n\r\t\u{1f600} é", "Aé中")]
    );
}

#[test]
fn reading_agrees_with_serde_json_on_strings() {
    for literal in [
        r#""plain""#,
        r#""\u0000\u001f\u007f""#,
        r#""𝄞""#,
        r#""a\/b""#,
        r#""""#,
    ] {
        let expected: String = serde_json::from_str(literal).unwrap();
        let text = format!("[{{\"md5\": {literal}, \"relpath\": \"p\"}}]");
        assert_eq!(Tree::load_from(&text).unwrap().entries, vec![entry("p", &expected)]);
    }
    for literal in [
        r#""\ud83d""#,
        r#""\ude00""#,
        r#""\ud83dA""#,
        r#""\x41""#,
        r#""\u12g4""#,
        "\"a\nb\"",
        r#""open"#,
    ] {
        assert!(serde_json::from_str::<String>(literal).is_err());
        let text = format!("[{{\"md5\": {literal}, \"relpath\": \"p\"}}]");
        assert!(is_rejected(&text));
    }
}

#[test]
fn what_is_written_is_read_back() {
    let tree = Tree {
        entries: vec![
            entry("data/bar", "e5a81dd70644b5534aae9f7c32055ec3"),
            entry("we\"ird\\ na,me: \u{1}\u{1f}\n\t\u{7f}é\u{1f600}", "00"),
            entry("", ""),
        ],
    };
    let text = tree.serialize().unwrap();
    assert_eq!(Tree::load_from(&text).unwrap().entries, tree.entries);
    let empty = Tree::default();
    assert!(Tree::load_from(&empty.serialize().unwrap())
        .unwrap()
        .entries
        .is_empty());
}

#[test]
fn malformed_manifests_are_rejected() {
    for text in [
        "",
        " ",
        "[",
        "]",
        "{}",
        "[{}]",
        "[,]",
        r#"[{"md5": "1"}]"#,
        r#"[{"md5": "1", "relpath": "a"},]"#,
        r#"[{"md5": "1", "relpath": "a"} {"md5": "2", "relpath": "b"}]"#,
        r#"[{"md5": "1", "md5": "2"}]"#,
        r#"[{"md5": "1", "relpath": "a", "size": "3"}]"#,
        r#"[{"md5": 1, "relpath": "a"}]"#,
        r#"[{"md5": "1", "relpath": "a"}] x"#,
        r#"[{"md5": "1", "relpath": "a"}"#,
        r#"[{"md5" "1", "relpath": "a"}]"#,
        r#"[{"MD5": "1", "relpath": "a"}]"#,
        r#"[{'md5': '1', 'relpath': 'a'}]"#,
        "[]]",
        "null",
    ] {
        assert!(is_rejected(text), "{text:?} was accepted");
    }
}
