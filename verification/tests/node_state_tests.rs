use cognet::{DataType, InputSlotState, NodeData, NodeId, NodePath, NodeState, NodeStates, SlotDef};

type States = NodeStates<(), f64>;

/// Verify that `subgraph_external_inputs` returns the input proxy's
/// input slots.
#[test]
fn subgraph_external_inputs_returns_proxy_input_slots() {
    let mut ns = States::new();
    let sg_id = NodeId::new();
    let in_id = NodeId::new();
    let sg_path = NodePath::root().child(sg_id);
    let in_path = sg_path.child(in_id);

    ns.add_node(&sg_path, "SubGraph", None, None, &[], &[]);
    ns.add_node(&in_path, "Interface", None, None, &[], &[]);
    ns.add_input_slot(&in_path, "value", DataType::Number, Some(1), true);

    let schema = ns.subgraph_external_inputs(&sg_path, in_id);
    assert_eq!(schema.len(), 1);
    assert_eq!(schema[0].0, "value");
    assert_eq!(schema[0].1, DataType::Number);
}

/// Verify that `subgraph_external_outputs` reads the output proxy's
/// *input* slots (the external output schema).
#[test]
fn subgraph_external_outputs_returns_output_proxy_input_slots() {
    let mut ns = States::new();
    let sg_id = NodeId::new();
    let out_id = NodeId::new();
    let sg_path = NodePath::root().child(sg_id);
    let out_path = sg_path.child(out_id);

    ns.add_node(&sg_path, "SubGraph", None, None, &[], &[]);
    ns.add_node(&out_path, "Interface", None, None, &[], &[]);
    ns.add_input_slot(&out_path, "result", DataType::Number, None, true);

    let schema = ns.subgraph_external_outputs(&sg_path, out_id);
    assert_eq!(schema.len(), 1);
    assert_eq!(schema[0].0, "result");
}

#[test]
fn slot_owner_reverse_maps_populated_and_torn_down() {
    let mut ns = States::new();
    let node_id = NodeId::new();
    let path = NodePath::root().child(node_id);

    ns.add_node(&path, "Test", None, None, &[], &[]);

    let in_idx = ns.add_input_slot(&path, "in", DataType::Number, Some(1), true);
    let out_idx = ns.add_output_slot(&path, "out", DataType::Number);

    let in_sid = ns.input_slot(&path, in_idx).unwrap().id;
    let out_sid = ns.output_slot(&path, out_idx).unwrap().id;

    let (in_owner_path, in_owner_idx) = ns.input_slot_owner(&in_sid).unwrap();
    assert_eq!(in_owner_path, path);
    assert_eq!(in_owner_idx, in_idx);

    let (out_owner_path, out_owner_idx) = ns.output_slot_owner(&out_sid).unwrap();
    assert_eq!(out_owner_path, path);
    assert_eq!(out_owner_idx, out_idx);

    ns.remove_input_slot(&path, in_idx);
    assert!(ns.input_slot_owner(&in_sid).is_none());

    ns.remove_output_slot(&path, out_idx);
    assert!(ns.output_slot_owner(&out_sid).is_none());
}

#[test]
fn slot_owner_populated_from_static_defs() {
    let mut ns = States::new();
    let node_id = NodeId::new();
    let path = NodePath::root().child(node_id);

    let input_defs = [SlotDef {
        label: "value",
        data_type: DataType::Number,
        max_connections: Some(1),
        inspector_visible: true,
    }];
    let output_defs = [SlotDef {
        label: "result",
        data_type: DataType::Number,
        max_connections: None,
        inspector_visible: true,
    }];

    ns.add_node(&path, "Test", None, None, &input_defs, &output_defs);

    let in_sid = ns.input_slot(&path, 0).unwrap().id;
    let out_sid = ns.output_slot(&path, 0).unwrap().id;

    assert!(ns.input_slot_owner(&in_sid).is_some());
    assert!(ns.output_slot_owner(&out_sid).is_some());

    let (p, i) = ns.input_slot_owner(&in_sid).unwrap();
    assert_eq!(p, path);
    assert_eq!(i, 0);
    let (p, i) = ns.output_slot_owner(&out_sid).unwrap();
    assert_eq!(p, path);
    assert_eq!(i, 0);
}

#[test]
fn remove_node_clears_slot_owner_maps() {
    let mut ns = States::new();
    let node_id = NodeId::new();
    let path = NodePath::root().child(node_id);

    ns.add_node(&path, "Test", None, None, &[], &[]);
    ns.add_input_slot(&path, "i", DataType::Number, None, true);
    ns.add_output_slot(&path, "o", DataType::Number);

    let in_sid = ns.input_slot(&path, 0).unwrap().id;
    let out_sid = ns.output_slot(&path, 0).unwrap().id;

    ns.remove_node(&path);

    assert!(ns.input_slot_owner(&in_sid).is_none());
    assert!(ns.output_slot_owner(&out_sid).is_none());
}

#[test]
fn changed_set_drains_and_restores() {
    let mut ns = States::new();
    let a = NodePath::root().child(NodeId::from_ulid(1));
    let b = NodePath::root().child(NodeId::from_ulid(2));
    ns.add_node(&a, "A", None, None, &[], &[]);
    ns.add_node(&b, "B", None, None, &[], &[]);
    let taken = ns.drain_changed_nodes();
    assert_eq!(taken.len(), 2);
    assert!(ns.peek_changed_nodes().is_empty());
    ns.restore_changed_nodes(&taken);
    let back = ns.peek_changed_nodes();
    assert_eq!(back.len(), 2);
    assert!(back.contains(&a) && back.contains(&b));
}

#[test]
fn inserting_a_slot_moves_later_slots_up() {
    let mut ns = States::new();
    let p = NodePath::root().child(NodeId::from_ulid(9));
    ns.add_node(&p, "N", None, None, &[], &[]);
    ns.add_input_slot(&p, "a", DataType::Number, None, true);
    ns.add_input_slot(&p, "c", DataType::Number, None, true);
    ns.insert_input_slot_at(&p, 1, "b", DataType::Bool, Some(1), false);
    let labels: Vec<&str> = (0..ns.input_slot_count(&p)).map(|i| ns.input_slot(&p, i).unwrap().label).collect();
    assert_eq!(labels, vec!["a", "b", "c"]);
    let b = ns.input_slot(&p, 1).unwrap();
    assert_eq!(b.data_type, DataType::Bool);
    assert_eq!(b.max_connections, Some(1));
    assert!(!b.inspector_visible);
    // Past the end appends.
    ns.insert_input_slot_at(&p, 10, "d", DataType::Number, None, true);
    assert_eq!(ns.input_slot(&p, 3).unwrap().label, "d");
}

#[test]
fn a_node_record_holds_what_it_was_built_with() {
    let st: NodeState<f64> = NodeState::new("Number", None, Some(NodeData::Value(2.5)));
    assert_eq!(st.type_label, "Number");
    assert!(st.rust_type_id.is_none());
    assert!(matches!(st.data, Some(NodeData::Value(v)) if v == 2.5));
}

#[test]
fn a_default_input_slot_is_an_unlabelled_unbounded_number_slot() {
    let slot: InputSlotState<f64> = InputSlotState::default();
    assert_eq!(slot.label, "");
    assert_eq!(slot.data_type, DataType::Number);
    assert_eq!(slot.max_connections, None);
    assert!(slot.inspector_visible);
    assert!(slot.default_value.is_none());
}
