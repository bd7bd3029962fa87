use treemap_rs::arena::{NodeMap, TreeMap};
use treemap_rs::error::TreeError;

#[test]
fn test_add_node_to_empty_tree() {
    let mut tree = TreeMap::new(None);
    let child_node = NodeMap::new(None);
    let child_node_id = child_node.id.clone();

    tree.add_child(child_node, None).unwrap();

    let child_entry = tree.find_by_id(&child_node_id).unwrap();
    let child_parent_id = child_entry.parent.as_ref().unwrap().clone();

    let root_node = tree.find_by_id(&"root".to_string()).unwrap();
    let root_id = root_node.id.clone();

    assert!(&child_parent_id == &root_id);

    assert!(root_node.children.iter().any(|child| child == &child_node_id));
}

#[test]
fn test_add_node_two_deep() {
    let mut tree = TreeMap::new(None);
    let child_node = NodeMap::new(None);
    let child_id = child_node.id.clone();
    let childs_child_node = NodeMap::new(None);
    let childs_child_id = childs_child_node.id.clone();

    tree.add_child(child_node, None).unwrap();
    tree.add_child(childs_child_node, Some(&child_id)).unwrap();

    let childs_child_parent_id = tree
        .find_by_id(&childs_child_id)
        .unwrap()
        .parent
        .as_ref()
        .unwrap()
        .clone();

    assert_eq!(childs_child_parent_id, child_id);

    assert!(tree
        .find_by_id(&child_id)
        .unwrap()
        .children
        .iter()
        .any(|child| child == &childs_child_id));
}

#[test]
fn test_find_by_id() {
    let mut tree = TreeMap::new(None);
    let child_node = NodeMap::new(None);
    let child_id = child_node.id.clone();
    let childs_child_node = NodeMap::new(None);
    let childs_child_id = childs_child_node.id.clone();

    tree.add_child(child_node, None).unwrap();
    tree.add_child(childs_child_node, Some(&child_id)).unwrap();

    let found_child = tree.find_by_id(&childs_child_id).unwrap();
    assert!(found_child.id == childs_child_id);
}

#[test]
fn test_get_ancestors_on_two_deep_tree() {
    let mut tree = TreeMap::new(None);
    let child_node = NodeMap::new(None);
    let child_id = child_node.id.clone();
    let childs_child_node = NodeMap::new(None);
    let childs_child_id = childs_child_node.id.clone();

    tree.add_child(child_node, None).unwrap();
    tree.add_child(childs_child_node, Some(&child_id)).unwrap();

    let grand_child_ancestors = tree.get_ancestors(&childs_child_id).unwrap();
    let root_id = tree.find_by_id(&"root".to_string()).unwrap().id.clone();

    assert!(grand_child_ancestors.iter().any(|ancestor| ancestor == &child_id));
    assert!(grand_child_ancestors.iter().any(|ancestor| ancestor == &root_id));
}

#[test]
fn test_move_node_from_two_deep_to_one_deep() {
    let mut tree = TreeMap::new(None);
    let child_node = NodeMap::new(None);
    let child_id = child_node.id.clone();
    let childs_child_node = NodeMap::new(None);
    let childs_child_id = childs_child_node.id.clone();

    tree.add_child(child_node, None).unwrap();
    tree.add_child(childs_child_node, Some(&child_id)).unwrap();

    let root_id = tree.find_by_id(&"root".to_string()).unwrap().id.clone();
    tree.move_node(&childs_child_id, &root_id).unwrap();

    let children = tree.find_by_id(&"root".to_string()).unwrap().children.clone();

    assert!(children.iter().any(|child| child == &child_id));
    assert!(children.iter().any(|child| child == &childs_child_id));
}

#[test]
fn test_generated_ids_are_canonical_and_distinct() {
    let a = NodeMap::new(None);
    let b = NodeMap::new(None);
    assert_eq!(a.id.len(), 36);
    assert_eq!(b.id.len(), 36);
    assert!(a.id != "root");
    assert!(a.id != b.id);
    assert!(a.children.is_empty());
    assert!(a.parent.is_none());
}

#[test]
fn test_new_with_supplied_root_keeps_its_id() {
    let root = NodeMap::new(None);
    let root_id = root.id.clone();
    let tree = TreeMap::new(Some(root));
    let resolved = tree.find_by_id(&"root".to_string()).unwrap();
    assert_eq!(resolved.id, root_id);
    assert_eq!(tree.get_root().id, root_id);
    assert_eq!(tree.len(), 1);
}

#[test]
fn test_find_by_id_unknown_id_is_not_found() {
    let tree = TreeMap::new(None);
    match tree.find_by_id(&"no-such-id".to_string()) {
        Err(e) => assert_eq!(e, TreeError::NotFound),
        Ok(_) => panic!("lookup of an unknown id must fail"),
    }
}

#[test]
fn test_add_child_rejects_duplicate_id() {
    let mut tree = TreeMap::new(None);
    let child = NodeMap::new(None);
    let child_id = child.id.clone();
    tree.add_child(child, None).unwrap();

    let twin = NodeMap {
        id: child_id.clone(),
        children: Vec::new(),
        parent: None,
    };
    assert_eq!(tree.add_child(twin, None), Err(TreeError::DuplicateId));
    // The rejected insertion left the tree unchanged.
    assert_eq!(tree.len(), 2);
}

#[test]
fn test_add_child_rejects_reserved_alias() {
    let mut tree = TreeMap::new(None);
    let impostor = NodeMap {
        id: "root".to_string(),
        children: Vec::new(),
        parent: None,
    };
    assert_eq!(tree.add_child(impostor, None), Err(TreeError::ReservedId));
}

#[test]
fn test_add_child_rejects_unknown_parent() {
    let mut tree = TreeMap::new(None);
    let child = NodeMap::new(None);
    let missing = "missing-parent".to_string();
    assert_eq!(tree.add_child(child, Some(&missing)), Err(TreeError::NotFound));
}

#[test]
fn test_get_ancestors_of_root_is_empty_and_length_is_depth() {
    let mut tree = TreeMap::new(None);
    let root_id = tree.get_root().id.clone();
    assert!(tree.get_ancestors(&root_id).unwrap().is_empty());

    let a = NodeMap::new(None);
    let a_id = a.id.clone();
    let b = NodeMap::new(None);
    let b_id = b.id.clone();
    tree.add_child(a, None).unwrap();
    tree.add_child(b, Some(&a_id)).unwrap();

    assert_eq!(tree.get_ancestors(&a_id).unwrap().len(), 1);
    assert_eq!(tree.get_ancestors(&b_id).unwrap().len(), 2);
}

#[test]
fn test_get_ancestors_unknown_id_is_not_found() {
    let tree = TreeMap::new(None);
    match tree.get_ancestors(&"nobody".to_string()) {
        Err(e) => assert_eq!(e, TreeError::NotFound),
        Ok(_) => panic!("ancestors of an unknown id must fail"),
    }
}

#[test]
fn test_move_node_refuses_self_and_descendant() {
    let mut tree = TreeMap::new(None);
    let a = NodeMap::new(None);
    let a_id = a.id.clone();
    let b = NodeMap::new(None);
    let b_id = b.id.clone();
    tree.add_child(a, None).unwrap();
    tree.add_child(b, Some(&a_id)).unwrap();

    // Moving a node below itself is refused.
    assert_eq!(tree.move_node(&a_id, &a_id), Err(TreeError::WouldCycle));
    // Moving a node below one of its descendants is refused.
    assert_eq!(tree.move_node(&a_id, &b_id), Err(TreeError::WouldCycle));
    // The refused moves left the tree unchanged.
    let b_parent = tree.find_by_id(&b_id).unwrap().parent.clone().unwrap();
    assert_eq!(b_parent, a_id);

    // The root is everyone's ancestor, so it can never be moved.
    let root_id = tree.get_root().id.clone();
    assert_eq!(tree.move_node(&root_id, &b_id), Err(TreeError::WouldCycle));
}

#[test]
fn test_move_node_unknown_ids_are_not_found() {
    let mut tree = TreeMap::new(None);
    let root_id = tree.get_root().id.clone();
    let stranger_id = "who".to_string();
    assert_eq!(tree.move_node(&stranger_id, &root_id), Err(TreeError::NotFound));
    assert_eq!(tree.move_node(&root_id, &stranger_id), Err(TreeError::NotFound));
}

#[test]
fn test_move_node_ancestors_begin_with_new_parent() {
    let mut tree = TreeMap::new(None);
    let a = NodeMap::new(None);
    let a_id = a.id.clone();
    let b = NodeMap::new(None);
    let b_id = b.id.clone();
    let c = NodeMap::new(None);
    let c_id = c.id.clone();
    tree.add_child(a, None).unwrap();
    tree.add_child(b, Some(&a_id)).unwrap();
    tree.add_child(c, None).unwrap();

    tree.move_node(&b_id, &c_id).unwrap();

    let ancestors = tree.get_ancestors(&b_id).unwrap();
    assert_eq!(ancestors[0], c_id);
    // The old parent no longer lists the moved node.
    assert!(!tree.find_by_id(&a_id).unwrap().children.iter().any(|x| x == &b_id));
    // Exactly the new parent does, at the end of its list.
    let c_children = &tree.find_by_id(&c_id).unwrap().children;
    assert_eq!(c_children.last().unwrap(), &b_id);
}

#[test]
fn test_move_node_to_same_parent_moves_to_end() {
    let mut tree = TreeMap::new(None);
    let a = NodeMap::new(None);
    let a_id = a.id.clone();
    let b = NodeMap::new(None);
    let b_id = b.id.clone();
    tree.add_child(a, None).unwrap();
    tree.add_child(b, None).unwrap();

    let root_id = tree.get_root().id.clone();
    tree.move_node(&a_id, &root_id).unwrap();

    let children = tree.find_by_id(&"root".to_string()).unwrap().children.clone();
    assert_eq!(children, vec![b_id, a_id]);
}

#[test]
fn test_build_two_deep_refused_then_moved_to_root() {
    // Build R with child A, and A with child B.
    let mut tree = TreeMap::new(None);
    let a = NodeMap::new(None);
    let a_id = a.id.clone();
    let b = NodeMap::new(None);
    let b_id = b.id.clone();
    tree.add_child(a, None).unwrap();
    tree.add_child(b, Some(&a_id)).unwrap();

    let root_id = tree.get_root().id.clone();
    let ancestors = tree.get_ancestors(&b_id).unwrap();
    assert_eq!(ancestors, vec![a_id.clone(), root_id.clone()]);

    // Moving A below B must fail and leave B's parent as A.
    assert_eq!(tree.move_node(&a_id, &b_id), Err(TreeError::WouldCycle));
    let b_parent = tree.find_by_id(&b_id).unwrap().parent.clone().unwrap();
    assert_eq!(b_parent, a_id);

    // Moving B below R succeeds; afterwards R's children hold both A and
    // B, and A has no children left.
    tree.move_node(&b_id, &root_id).unwrap();
    let root_children = tree.find_by_id(&"root".to_string()).unwrap().children.clone();
    assert!(root_children.iter().any(|x| x == &a_id));
    assert!(root_children.iter().any(|x| x == &b_id));
    assert!(tree.find_by_id(&a_id).unwrap().children.is_empty());
}
