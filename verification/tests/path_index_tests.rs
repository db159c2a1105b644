use cognet::{NodeId, NodePath, PathIndex};

#[test]
fn empty_index_returns_no_children() {
    let idx = PathIndex::default();
    assert!(idx.children_of(&NodePath::root()).is_empty());
}

#[test]
fn insert_then_query_returns_child() {
    let mut idx = PathIndex::default();
    let id = NodeId::new();
    idx.insert(&NodePath::root().child(id));
    assert_eq!(idx.children_of(&NodePath::root()), &[id]);
}

#[test]
fn remove_drops_child() {
    let mut idx = PathIndex::default();
    let id = NodeId::new();
    let p = NodePath::root().child(id);
    idx.insert(&p);
    idx.remove(&p);
    assert!(idx.children_of(&NodePath::root()).is_empty());
}

#[test]
fn nested_paths_isolated_per_parent() {
    let mut idx = PathIndex::default();
    let a = NodeId::new();
    let b = NodeId::new();
    let p1 = NodePath::root().child(a);
    let p2 = p1.child(b);
    idx.insert(&p1);
    idx.insert(&p2);
    assert_eq!(idx.children_of(&NodePath::root()), &[a]);
    assert_eq!(idx.children_of(&p1), &[b]);
}

#[test]
fn insert_keeps_creation_order_and_ignores_repeats() {
    let mut idx = PathIndex::new();
    let a = NodeId::from_ulid(3);
    let b = NodeId::from_ulid(1);
    idx.insert(&NodePath::root().child(a));
    idx.insert(&NodePath::root().child(b));
    idx.insert(&NodePath::root().child(a));
    assert_eq!(idx.children_of(&NodePath::root()), &[a, b]);
}
