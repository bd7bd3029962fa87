use treemap_rs::error::TreeError;
use treemap_rs::record::{export, import, Record};

fn leaf(id: &str, data: Option<u64>) -> Record<u64> {
    Record { id: Some(id.to_string()), data, children: Vec::new() }
}

fn branch(id: &str, data: Option<u64>, children: Vec<Record<u64>>) -> Record<u64> {
    Record { id: Some(id.to_string()), data, children }
}

fn assert_same_shape(a: &Record<u64>, b: &Record<u64>) {
    assert_eq!(a.id, b.id);
    assert_eq!(a.children.len(), b.children.len());
    for (ca, cb) in a.children.iter().zip(b.children.iter()) {
        assert_same_shape(ca, cb);
    }
}

#[test]
fn test_import_two_level_record() {
    // The record {id:"x", children:[{id:"y"}, {id:"z", data:7}]}.
    let rec = branch("x", None, vec![leaf("y", None), leaf("z", Some(7))]);
    let (tree, pairs) = import(&rec).unwrap();

    let z = tree.find_by_id(&"z".to_string()).unwrap();
    assert_eq!(z.id, "z");
    assert_eq!(z.parent.as_deref(), Some("x"));
    // The payload of "z" went to the payload pairs, nowhere else.
    assert_eq!(pairs, vec![("z".to_string(), 7)]);

    let x = tree.find_by_id(&"x".to_string()).unwrap();
    assert_eq!(x.children, vec!["y".to_string(), "z".to_string()]);
    assert!(x.parent.is_none());
    assert_eq!(tree.get_root().id, "x");

    // Export reproduces the structure, with the payload present exactly
    // where it was given.
    let out = export(&tree, &pairs);
    assert_eq!(out.id.as_deref(), Some("x"));
    assert_eq!(out.data, None);
    assert_eq!(out.children.len(), 2);
    assert_eq!(out.children[0].id.as_deref(), Some("y"));
    assert_eq!(out.children[0].data, None);
    assert!(out.children[0].children.is_empty());
    assert_eq!(out.children[1].id.as_deref(), Some("z"));
    assert_eq!(out.children[1].data, Some(7));
    assert!(out.children[1].children.is_empty());
}

#[test]
fn test_round_trip_preserves_shape() {
    let rec = branch(
        "a",
        Some(1),
        vec![
            branch("b", None, vec![leaf("d", Some(4)), leaf("e", None)]),
            leaf("c", Some(3)),
        ],
    );
    let (tree, pairs) = import(&rec).unwrap();
    let out = export(&tree, &pairs);
    assert_same_shape(&out, &rec);
    // The payloads came back too.
    assert_eq!(out.data, Some(1));
    assert_eq!(out.children[0].children[0].data, Some(4));
    assert_eq!(out.children[0].children[1].data, None);
    assert_eq!(out.children[1].data, Some(3));
}

#[test]
fn test_import_rejects_missing_id() {
    let nameless = Record { id: None, data: Some(9), children: Vec::new() };
    let rec = branch("x", None, vec![nameless]);
    match import(&rec) {
        Err(e) => assert_eq!(e, TreeError::MissingId),
        Ok(_) => panic!("a record without an id must be rejected"),
    }
}

#[test]
fn test_import_rejects_duplicate_ids() {
    let rec = branch("x", None, vec![leaf("y", None), leaf("y", None)]);
    match import(&rec) {
        Err(e) => assert_eq!(e, TreeError::DuplicateId),
        Ok(_) => panic!("duplicate ids must be rejected"),
    }
}

#[test]
fn test_import_rejects_reserved_alias_below_root() {
    let rec = branch("x", None, vec![leaf("root", None)]);
    match import(&rec) {
        Err(e) => assert_eq!(e, TreeError::ReservedId),
        Ok(_) => panic!("the reserved alias must be rejected below the root"),
    }
}

#[test]
fn test_import_accepts_reserved_alias_as_root_id() {
    let rec = branch("root", None, vec![leaf("a", None)]);
    let (tree, pairs) = import(&rec).unwrap();
    assert!(pairs.is_empty());
    let a = tree.find_by_id(&"a".to_string()).unwrap();
    assert_eq!(a.parent.as_deref(), Some("root"));
    assert_eq!(tree.get_root().id, "root");
}

#[test]
fn test_imported_tree_supports_moves() {
    let rec = branch("x", None, vec![branch("y", None, vec![leaf("z", Some(7))])]);
    let (mut tree, pairs) = import(&rec).unwrap();
    tree.move_node(&"z".to_string(), &"x".to_string()).unwrap();
    let x = tree.find_by_id(&"x".to_string()).unwrap();
    assert_eq!(x.children, vec!["y".to_string(), "z".to_string()]);
    let out = export(&tree, &pairs);
    assert_eq!(out.children.len(), 2);
    assert_eq!(out.children[1].id.as_deref(), Some("z"));
    assert_eq!(out.children[1].data, Some(7));
}

#[test]
fn test_export_of_singleton_tree() {
    let rec: Record<u64> = leaf("only", None);
    let (tree, pairs) = import(&rec).unwrap();
    let out = export(&tree, &pairs);
    assert_eq!(out.id.as_deref(), Some("only"));
    assert_eq!(out.data, None);
    assert!(out.children.is_empty());
}
