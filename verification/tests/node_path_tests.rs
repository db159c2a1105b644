use cognet::{NodeId, NodePath};

#[test]
fn root_is_root_and_empty() {
    let r = NodePath::root();
    assert!(r.is_root());
    assert_eq!(r.segments().len(), 0);
    assert_eq!(r.leaf(), None);
    assert_eq!(r.parent(), None);
}

#[test]
fn child_extends_and_parent_pops() {
    let a = NodeId::new();
    let b = NodeId::new();
    let p = NodePath::root().child(a).child(b);
    assert_eq!(p.segments().len(), 2);
    assert_eq!(p.leaf(), Some(b));
    assert_eq!(p.parent().and_then(|p| p.leaf()), Some(a));
    assert_eq!(
        p.parent().and_then(|p| p.parent()).map(|p| p.is_root()),
        Some(true)
    );
}

#[test]
fn clone_is_cheap_and_equal() {
    let p = NodePath::root().child(NodeId::new());
    let q = p.clone();
    assert_eq!(p, q);
}

#[test]
fn display_uses_slash_separator() {
    let root = NodePath::root();
    assert_eq!(root.display_string(), "/");
}

#[test]
fn display_of_a_child_is_its_ulid_after_a_slash() {
    let id = NodeId::from_ulid(1);
    let p = NodePath::root().child(id);
    assert_eq!(p.display_string(), format!("/{}", id.id_string()));
    assert_eq!(id.id_string(), "00000000000000000000000001");
    assert_eq!(p.depth(), 1);
}
