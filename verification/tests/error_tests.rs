use cognet::{DataType, EdgeId, ErrorKind, ErrorTarget, GraphError, ListElem, NodeId, NodePath};

#[test]
fn each_error_kind_has_its_message() {
    let n = NodeId::from_ulid(1);
    assert_eq!(
        GraphError::type_mismatch(n, 0, DataType::Number, DataType::Domain("Mesh2")).message(),
        "Type mismatch: cannot connect Number to Domain(\"Mesh2\")"
    );
    assert_eq!(
        GraphError::connection_limit_exceeded(n, 0, 12).message(),
        "Connection limit exceeded: maximum 12 connection(s)"
    );
    assert_eq!(GraphError::node_not_found(n).message(), "Node not found");
    assert_eq!(GraphError::input_slot_not_found(n, 3).message(), "Slot not found");
    assert_eq!(GraphError::output_slot_not_found(n, 3).message(), "Slot not found");
    assert_eq!(GraphError::cycle_detected().message(), "Cycle detected in graph");
    assert_eq!(GraphError::execution(n, "bad".to_string()).message(), "Execution error: bad");
    assert_eq!(
        GraphError::new(ErrorTarget::Edge(EdgeId::from_ulid(2)), ErrorKind::Other("plain".to_string())).message(),
        "plain"
    );
    assert_eq!(
        GraphError::type_mismatch(n, 0, DataType::List(ListElem::Color), DataType::Bool).message(),
        "Type mismatch: cannot connect List(Color) to Bool"
    );
}

#[test]
fn errors_are_classified_by_kind() {
    let n = NodeId::from_ulid(1);
    assert!(GraphError::type_mismatch(n, 0, DataType::Number, DataType::Bool).is_connection_error());
    assert!(GraphError::connection_limit_exceeded(n, 0, 1).is_connection_error());
    assert!(!GraphError::node_not_found(n).is_connection_error());
    assert!(GraphError::execution(n, "x".to_string()).is_execution_error());
    assert!(!GraphError::cycle_detected().is_execution_error());
}

#[test]
fn error_targets_follow_the_failing_place() {
    let n = NodeId::from_ulid(9);
    assert_eq!(GraphError::input_slot_not_found(n, 2).target, ErrorTarget::InputPort { node_id: n, slot_index: 2 });
    assert_eq!(GraphError::output_slot_not_found(n, 1).target, ErrorTarget::OutputPort { node_id: n, slot_index: 1 });
    let at_child = GraphError::execution_at_path(&NodePath::root().child(NodeId::from_ulid(4)).child(n), "x".to_string());
    assert_eq!(at_child.target, ErrorTarget::Node(n));
    let at_root = GraphError::execution_at_path(&NodePath::root(), "x".to_string());
    assert_eq!(at_root.target, ErrorTarget::Graph);
}
