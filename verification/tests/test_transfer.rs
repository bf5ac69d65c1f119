use dvc_data::checkout::{checkout_file, checkout_obj, link_type, Attempt, LinkType};
use dvc_data::objects::{Object, Tree, TreeEntry};
use dvc_data::odb::Odb;
use dvc_data::pathmap::PathMap;
use dvc_data::transfer::{pending, transfer, transfer_obj, transfer_tree, write_obj, ObjectCopy};

const BAR: &str = "e5a81dd70644b5534aae9f7c32055ec3";
const BAZ: &str = "eceec35e3f3dd774244de59b1094cc59";

fn odb() -> Odb {
    Odb {
        path: "/odb".to_string(),
    }
}

fn sample_tree() -> Tree {
    Tree {
        entries: vec![
            TreeEntry {
                relpath: "data/bar".to_string(),
                oid: BAR.to_string(),
            },
            TreeEntry {
                relpath: "data/baz".to_string(),
                oid: BAZ.to_string(),
            },
        ],
    }
}

fn copy(from: &str, to: &str) -> ObjectCopy {
    ObjectCopy {
        from: from.to_string(),
        to: to.to_string(),
    }
}

#[test]
fn file_object_is_one_copy() {
    let plan = transfer(&odb(), "/w/file", &Object::HashFile(BAR.to_string()));
    assert_eq!(
        plan.copies,
        vec![copy("/w/file", "/odb/e5/a81dd70644b5534aae9f7c32055ec3")]
    );
    assert_eq!(plan.manifest, None);
    assert_eq!(plan.oid, BAR);
}

#[test]
fn tree_is_copied_file_by_file_and_then_written() {
    let plan = transfer(&odb(), "/w", &Object::Tree(sample_tree()));
    assert_eq!(
        plan.copies,
        vec![
            copy("/w/data/bar", "/odb/e5/a81dd70644b5534aae9f7c32055ec3"),
            copy("/w/data/baz", "/odb/ec/eec35e3f3dd774244de59b1094cc59")
        ]
    );
    let manifest = plan.manifest.unwrap();
    assert_eq!(manifest.to, "/odb/a1/87d325e83704a3fad49b2f2ab67d20.dir");
    assert_eq!(manifest.contents, sample_tree().serialize().unwrap());
    assert!(!manifest.contents.ends_with('\n'));
    assert_eq!(plan.oid, "a187d325e83704a3fad49b2f2ab67d20.dir");
}

#[test]
fn empty_tree_is_only_written() {
    let plan = transfer_tree(&odb(), "/w", &Tree::default());
    assert!(plan.copies.is_empty());
    assert_eq!(plan.manifest.unwrap().contents, "[]");
}

#[test]
fn single_steps_name_the_place_in_the_database() {
    assert_eq!(
        transfer_obj("/odb", "/w/f", "abcd"),
        copy("/w/f", "/odb/ab/cd")
    );
    let w = write_obj("/odb", "abcd.dir", "[]");
    assert_eq!(w.to, "/odb/ab/cd.dir");
    assert_eq!(w.contents, "[]");
}

#[test]
fn existing_destinations_are_left_alone() {
    let copies = vec![
        copy("/w/a", "/odb/aa/1"),
        copy("/w/b", "/odb/bb/2"),
        copy("/w/c", "/odb/aa/1"),
        copy("/w/d", "/odb/dd/4"),
    ];
    let mut present: PathMap<bool> = PathMap::new();
    present.insert("/odb/bb/2".to_string(), true);
    assert_eq!(
        pending(&copies, &present),
        vec![copy("/w/a", "/odb/aa/1"), copy("/w/d", "/odb/dd/4")]
    );
}

#[test]
fn second_transfer_copies_nothing() {
    let plan = transfer(&odb(), "/w", &Object::Tree(sample_tree()));
    let mut present: PathMap<bool> = PathMap::new();
    let first = pending(&plan.copies, &present);
    assert_eq!(first.len(), 2);
    for c in &first {
        present.insert(c.to.clone(), true);
    }
    let stored = present.len();
    let again = transfer(&odb(), "/w", &Object::Tree(sample_tree()));
    assert!(pending(&again.copies, &present).is_empty());
    assert_eq!(present.len(), stored);
}

#[test]
fn link_names_are_known() {
    assert_eq!(link_type("copy"), Some(LinkType::Copy));
    assert_eq!(link_type("reflink"), Some(LinkType::Reflink));
    assert_eq!(link_type("hardlink"), Some(LinkType::Hardlink));
    assert_eq!(link_type("symlink"), Some(LinkType::Symlink));
    assert_eq!(link_type("Copy"), None);
    assert_eq!(link_type(""), None);
}

#[test]
fn default_preference_is_copy_alone() {
    assert!(matches!(checkout_file(None, 0), Attempt::Try(LinkType::Copy)));
    assert!(matches!(checkout_file(None, 1), Attempt::Failed));
}

#[test]
fn preferences_are_tried_in_order() {
    let types = vec![
        "reflink".to_string(),
        "hardlink".to_string(),
        "bogus".to_string(),
        "symlink".to_string(),
    ];
    assert!(matches!(
        checkout_file(Some(&types), 0),
        Attempt::Try(LinkType::Reflink)
    ));
    assert!(matches!(
        checkout_file(Some(&types), 1),
        Attempt::Try(LinkType::Hardlink)
    ));
    match checkout_file(Some(&types), 2) {
        Attempt::Unknown(name) => assert_eq!(name, "bogus"),
        _ => panic!("an unknown name was expected"),
    }
    assert!(matches!(
        checkout_file(Some(&types), 3),
        Attempt::Try(LinkType::Symlink)
    ));
    assert!(matches!(checkout_file(Some(&types), 4), Attempt::Failed));
    assert!(matches!(checkout_file(Some(&Vec::new()), 0), Attempt::Failed));
}

#[test]
fn file_is_checked_out_at_the_destination() {
    let links = checkout_obj(&odb(), &Object::HashFile(BAR.to_string()), "out/file");
    assert_eq!(
        links,
        vec![copy("/odb/e5/a81dd70644b5534aae9f7c32055ec3", "out/file")]
    );
}

#[test]
fn tree_is_checked_out_below_the_destination() {
    let links = checkout_obj(&odb(), &Object::Tree(sample_tree()), "out");
    assert_eq!(
        links,
        vec![
            copy("/odb/e5/a81dd70644b5534aae9f7c32055ec3", "out/data/bar"),
            copy("/odb/ec/eec35e3f3dd774244de59b1094cc59", "out/data/baz")
        ]
    );
}
