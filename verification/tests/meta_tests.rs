use cognet::{
    list_operand, list_result, number_operand, number_result, AddNode, DataType,
    InterfaceDirection, InterfaceNode, InterfaceNodeData, ListElem, NodeCategory, NodeInit,
    NodeMeta, NumberNode, SelectNode,
};

#[test]
fn node_meta_is_interface_category_with_no_static_slots() {
    assert_eq!(InterfaceNode::name(), "InterfaceNode");
    assert!(matches!(InterfaceNode::category(), NodeCategory::Interface));
    assert!(InterfaceNode::inputs().is_empty());
    assert!(InterfaceNode::outputs().is_empty());
}

#[test]
fn interface_node_data_default_has_input_direction_and_empty_locked() {
    let d = InterfaceNodeData::default();
    assert_eq!(d.direction, InterfaceDirection::Input);
    assert!(d.locked.is_empty());
}

#[test]
fn operand_slot_builders_carry_their_documented_shapes() {
    let a = number_operand("A");
    assert_eq!(a.label, "A");
    assert_eq!(a.data_type, DataType::Number);
    assert_eq!(a.max_connections, Some(1));
    assert!(a.inspector_visible);

    let al = list_operand("A[]");
    assert_eq!(al.data_type, DataType::List(ListElem::Number));
    assert_eq!(al.max_connections, Some(1));
    assert!(!al.inspector_visible, "the list form stays out of inspectors");

    let r = number_result("Sum");
    assert_eq!(r.max_connections, None);
    let rl = list_result("Sums");
    assert_eq!(rl.data_type, DataType::List(ListElem::Number));
    assert_eq!(rl.max_connections, None);
}

#[test]
fn interface_data_lock_records_each_label_once() {
    let mut d = InterfaceNodeData::new_default();
    assert!(!d.is_locked("a"));
    d.lock("a".to_string());
    d.lock("a".to_string());
    d.lock("b".to_string());
    assert!(d.is_locked("a"));
    assert!(d.is_locked("b"));
    assert_eq!(d.locked.len(), 2);
}

#[test]
fn category_names_match_their_variants() {
    assert_eq!(NodeCategory::Math.as_str(), "Math");
    assert_eq!(NodeCategory::Interface.as_str(), "Interface");
    assert_eq!(NodeCategory::IO.as_str(), "IO");
}

#[test]
fn data_type_labels_and_fields() {
    assert_eq!(DataType::Number.label(), "Number");
    assert_eq!(DataType::List(ListElem::Vector3).label(), "List<Vector3>");
    assert_eq!(DataType::Domain("Mesh2").label(), "Mesh2");
    assert_eq!(DataType::Vector3.field_names(), vec!["x", "y", "z"]);
    assert_eq!(DataType::Color.field_names(), vec!["r", "g", "b", "a"]);
    assert!(DataType::Number.field_names().is_empty());
    assert_eq!(DataType::standard_types().len(), 13);
    assert!(DataType::standard_types().contains(&DataType::Transform));
    assert_eq!(DataType::standard_types()[0], DataType::Number);
}

#[test]
fn every_built_in_node_initializes() {
    assert!(AddNode::initialize().is_ok());
    assert!(NumberNode::initialize().is_ok());
    assert!(SelectNode::initialize().is_ok());
    assert!(InterfaceNode::initialize().is_ok());
}
