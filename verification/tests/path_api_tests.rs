#![allow(dead_code)]
use cognet::{
    AddListNode, AddNode, DataType, InterfaceDirection, NodeData, NodeGraph, NodeId, NodeMeta,
    NodePath, NumberNode, PayloadType, SlotDef,
};

/// A node payload: a number, or an opaque value of some domain.
#[derive(Debug, Clone, PartialEq)]
enum Payload {
    Number(f64),
    Vector3(f64, f64, f64),
    Other(&'static str),
}

impl PayloadType for Payload {
    fn payload_type(&self) -> DataType {
        match self {
            Payload::Number(_) => DataType::Number,
            Payload::Vector3(..) => DataType::Vector3,
            Payload::Other(domain) => DataType::Domain(domain),
        }
    }
}

type Graph = NodeGraph<Payload, f64>;

fn new_graph() -> Graph {
    NodeGraph::new()
}

/// The slot layout registered under a node type name.
fn layout(name: &str) -> (Vec<SlotDef>, Vec<SlotDef>) {
    match name {
        "Number" => (NumberNode::inputs(), NumberNode::outputs()),
        "Add" => (AddNode::inputs(), AddNode::outputs()),
        "AddList" => (AddListNode::inputs(), AddListNode::outputs()),
        "Vector3" => (Vec::new(), vec![SlotDef::new("Vector", DataType::Vector3, None)]),
        "Vec3InputTestNode" => (vec![SlotDef::new("In", DataType::Vector3, Some(1))], Vec::new()),
        _ => (Vec::new(), Vec::new()),
    }
}

/// Places a node of type `name` under a fresh id below `parent`.
fn create_node_at(g: &mut Graph, parent: &NodePath, name: &'static str) -> NodeId {
    let id = NodeId::new();
    let (inputs, outputs) = layout(name);
    g.add_node_at(&parent.child(id), name, None, None, &inputs, &outputs)
        .expect("add node");
    id
}

fn create_node(g: &mut Graph, name: &'static str) -> NodeId {
    create_node_at(g, &NodePath::root(), name)
}

fn add_subgraph(g: &mut Graph, label: &str) -> NodeId {
    g.add_subgraph_at(&NodePath::root(), label.to_string())
        .expect("add_subgraph_at")
}

fn input_labels_at(g: &Graph, path: &NodePath) -> Vec<&'static str> {
    let ns = g.node_states();
    (0..ns.input_slot_count(path))
        .map(|i| ns.input_slot(path, i).expect("slot").label)
        .collect()
}

fn output_labels_at(g: &Graph, path: &NodePath) -> Vec<&'static str> {
    let ns = g.node_states();
    (0..ns.output_slot_count(path))
        .map(|i| ns.output_slot(path, i).expect("slot").label)
        .collect()
}

#[test]
fn add_subgraph_at_root_registers_three_nodes() {
    let mut graph = new_graph();
    let sg_id = add_subgraph(&mut graph, "TestSG");

    assert!(graph.node_states().get(&NodePath::root().child(sg_id)).is_some());

    let sg_path = NodePath::root().child(sg_id);
    let children = graph.children_of_path(&sg_path);
    assert_eq!(children.len(), 2, "expected 2 proxy children, got {}", children.len());
}

#[test]
fn node_at_path_finds_child_interface_node() {
    let mut graph = new_graph();
    let sg_id = add_subgraph(&mut graph, "SG");
    let sg_path = NodePath::root().child(sg_id);
    let (in_id, out_id) = graph.subgraph_proxy_ids_at_path(&sg_path).expect("proxy ids");

    assert!(graph.node_states().get(&sg_path.child(in_id)).is_some());
    assert!(graph.node_states().get(&sg_path.child(out_id)).is_some());
}

#[test]
fn remove_node_at_cleans_up_subtree() {
    let mut graph = new_graph();
    let sg_id = add_subgraph(&mut graph, "SG");
    let sg_path = NodePath::root().child(sg_id);
    let (in_id, _) = graph.subgraph_proxy_ids_at_path(&sg_path).expect("proxy ids");

    graph.remove_node_at(&sg_path).expect("remove_node_at");

    assert!(graph.node_states().get(&sg_path).is_none());
    assert!(graph.node_states().get(&sg_path.child(in_id)).is_none());
}

#[test]
fn is_subgraph_node_at_path_distinguishes_types() {
    let mut graph = new_graph();
    let sg_id = add_subgraph(&mut graph, "SG");
    let sg_path = NodePath::root().child(sg_id);
    let (in_id, _) = graph.subgraph_proxy_ids_at_path(&sg_path).expect("proxy ids");

    assert!(graph.is_subgraph_node_at_path(&sg_path));
    assert!(!graph.is_subgraph_node_at_path(&sg_path.child(in_id)));
}

#[test]
fn stamp_interface_direction_pub_crate_wrapper_works() {
    let mut graph = new_graph();
    let sg_id = add_subgraph(&mut graph, "SG");
    let sg_path = NodePath::root().child(sg_id);
    let (in_id, _) = graph.subgraph_proxy_ids_at_path(&sg_path).expect("proxy ids");
    let in_path = sg_path.child(in_id);
    assert!(graph.stamp_interface_direction(&in_path, InterfaceDirection::Input).is_ok());
}

#[test]
fn create_node_by_name_at_subgraph_registers_slots() {
    let mut graph = new_graph();
    let sg_id = add_subgraph(&mut graph, "SG");
    let sg_path = NodePath::root().child(sg_id);

    let add_id = create_node_at(&mut graph, &sg_path, "Add");
    let add_path = sg_path.child(add_id);

    assert!(graph.node_states().get(&add_path).is_some());
    let ns = graph.node_states();
    assert_eq!(ns.input_slot_count(&add_path), AddNode::inputs().len());
    assert_eq!(ns.output_slot_count(&add_path), AddNode::outputs().len());
}

#[test]
fn add_subgraph_at_with_id_preserves_caller_id() {
    let mut graph = new_graph();
    let sg_id = NodeId::new();
    let returned = graph
        .add_subgraph_at_with_id(&NodePath::root(), sg_id, "SG".to_string())
        .expect("add_subgraph_at_with_id");
    assert_eq!(returned, sg_id, "must return the caller-supplied id");

    let sg_path = NodePath::root().child(sg_id);
    assert!(graph.node_states().get(&sg_path).is_some());
    assert_eq!(graph.children_of_path(&sg_path).len(), 2);
}

#[test]
fn update_node_data_at_depth_2_marks_path_changed() {
    let mut graph = new_graph();
    let sg_id = add_subgraph(&mut graph, "SG");
    let sg_path = NodePath::root().child(sg_id);
    let v3_id = create_node_at(&mut graph, &sg_path, "Vector3");
    let v3_path = sg_path.child(v3_id);

    let _ = graph.node_states_mut().drain_changed_nodes();

    graph
        .update_node_data_at(&v3_path, NodeData::Value(Payload::Vector3(1.0, 2.0, 3.0)))
        .expect("update_node_data_at");

    let changed = graph.node_states().peek_changed_nodes();
    assert!(changed.contains(&v3_path), "depth-2 path must appear in changed_nodes");

    let data = graph.node_data_at_path(&v3_path).expect("data set");
    assert!(matches!(data, NodeData::Value(Payload::Vector3(x, y, z)) if (*x, *y, *z) == (1.0, 2.0, 3.0)));
}

#[test]
fn clear_node_data_at_depth_2_removes_data_and_marks_path_changed() {
    let mut graph = new_graph();
    let sg_id = add_subgraph(&mut graph, "SG");
    let sg_path = NodePath::root().child(sg_id);
    let v3_id = create_node_at(&mut graph, &sg_path, "Vector3");
    let v3_path = sg_path.child(v3_id);

    graph
        .update_node_data_at(&v3_path, NodeData::Value(Payload::Vector3(1.0, 2.0, 3.0)))
        .expect("update_node_data_at");
    let _ = graph.node_states_mut().drain_changed_nodes();

    graph.clear_node_data_at(&v3_path).expect("clear_node_data_at");

    let changed = graph.node_states().peek_changed_nodes();
    assert!(changed.contains(&v3_path));
    assert!(graph.node_data_at_path(&v3_path).is_none());
}

#[test]
fn clear_node_data_at_is_idempotent_when_data_already_absent() {
    let mut graph = new_graph();
    let v3_id = create_node(&mut graph, "Vector3");
    let v3_path = NodePath::root().child(v3_id);

    graph.clear_node_data_at(&v3_path).expect("first clear_node_data_at");
    graph
        .clear_node_data_at(&v3_path)
        .expect("clearing an already-absent payload is a no-op Ok");

    assert!(graph.node_data_at_path(&v3_path).is_none());
}

#[test]
fn clear_node_data_at_errors_on_unknown_path() {
    let mut graph = new_graph();
    let missing = NodePath::root().child(NodeId::new());

    let err = graph.clear_node_data_at(&missing).expect_err("unknown path must be an Err");
    assert!(err.contains("not found"), "error must name the missing node, got {err}");
}

#[test]
fn update_input_slot_default_data_at_mirrors_to_proxy_when_target_is_subgraph() {
    let mut graph = new_graph();
    let sg_id = add_subgraph(&mut graph, "SG");
    graph.add_subgraph_input(&sg_id, "x", DataType::Number).expect("add input");

    let sg_path = NodePath::root().child(sg_id);
    graph
        .update_input_slot_default_data_at(&sg_path, 0, 13.0)
        .expect("update default");

    let (input_proxy_id, _) = graph.subgraph_proxy_ids(&sg_id).expect("proxy ids");
    let proxy_path = sg_path.child(input_proxy_id);
    let ns = graph.node_states();
    assert!(ns.input_slot(&sg_path, 0).unwrap().default_value.is_some(), "external default written");
    assert!(ns.input_slot(&proxy_path, 0).unwrap().default_value.is_some(), "proxy default mirrored");
}

#[test]
fn update_input_slot_default_data_at_leaves_no_partial_state_on_proxy_slot_missing() {
    let mut graph = new_graph();
    let sg_id = add_subgraph(&mut graph, "SG");
    graph.add_subgraph_input(&sg_id, "x", DataType::Number).expect("add input");

    let sg_path = NodePath::root().child(sg_id);
    let (input_proxy_id, _) = graph.subgraph_proxy_ids(&sg_id).expect("proxy ids");
    let proxy_path = sg_path.child(input_proxy_id);

    graph.node_states_mut().remove_input_slot(&proxy_path, 0);

    let err = graph
        .update_input_slot_default_data_at(&sg_path, 0, 13.0)
        .expect_err("mirror should Err on missing proxy slot");
    assert!(err.contains("InputProxy"), "error mentions InputProxy: {err}");

    let ns = graph.node_states();
    assert!(
        ns.input_slot(&sg_path, 0).unwrap().default_value.is_none(),
        "external slot must not be mutated when mirror fails",
    );
}

#[test]
fn update_input_slot_default_data_at_depth_2_sets_slot() {
    let mut graph = new_graph();
    let sg_id = add_subgraph(&mut graph, "SG");
    let sg_path = NodePath::root().child(sg_id);
    let add_id = create_node_at(&mut graph, &sg_path, "Add");
    let add_path = sg_path.child(add_id);

    graph
        .update_input_slot_default_data_at(&add_path, 0, 11.5)
        .expect("update_input_slot_default_data_at");

    let slot = graph.node_states().input_slot(&add_path, 0).expect("input slot 0 must exist");
    let value = slot.default_value.expect("default_value set after update");
    assert_eq!(value, 11.5);
}

#[test]
fn clear_input_slot_default_data_at_resets_default_to_none() {
    let mut graph = new_graph();
    let add_id = create_node(&mut graph, "Add");
    let add_path = NodePath::root().child(add_id);

    graph.update_input_slot_default_data_at(&add_path, 0, 4.0).expect("seed default");
    let _ = graph.node_states_mut().drain_changed_nodes();

    graph.clear_input_slot_default_data_at(&add_path, 0).expect("clear default");

    let ns = graph.node_states();
    assert!(ns.input_slot(&add_path, 0).unwrap().default_value.is_none(), "default must be None after clear");
    assert!(ns.peek_changed_nodes().contains(&add_path), "clear must mark the path changed");
}

#[test]
fn clear_input_slot_default_data_at_over_absent_is_noop_ok() {
    let mut graph = new_graph();
    let add_id = create_node(&mut graph, "Add");
    let add_path = NodePath::root().child(add_id);

    graph
        .clear_input_slot_default_data_at(&add_path, 0)
        .expect("clear over absent default must be Ok");

    assert!(graph.node_states().input_slot(&add_path, 0).unwrap().default_value.is_none(), "default stays None");
}

#[test]
fn clear_input_slot_default_data_at_errs_on_missing_slot() {
    let mut graph = new_graph();
    let add_id = create_node(&mut graph, "Add");
    let add_path = NodePath::root().child(add_id);

    let err = graph
        .clear_input_slot_default_data_at(&add_path, 99)
        .expect_err("slot 99 does not exist");
    assert!(err.contains("slot 99"), "error names the slot: {err}");
}

#[test]
fn clear_input_slot_default_data_at_mirrors_to_proxy_when_target_is_subgraph() {
    let mut graph = new_graph();
    let sg_id = add_subgraph(&mut graph, "SG");
    graph.add_subgraph_input(&sg_id, "x", DataType::Number).expect("add input");
    let sg_path = NodePath::root().child(sg_id);
    graph.update_input_slot_default_data_at(&sg_path, 0, 13.0).expect("seed default");

    graph.clear_input_slot_default_data_at(&sg_path, 0).expect("clear default");

    let (input_proxy_id, _) = graph.subgraph_proxy_ids(&sg_id).expect("proxy ids");
    let proxy_path = sg_path.child(input_proxy_id);
    let ns = graph.node_states();
    assert!(ns.input_slot(&sg_path, 0).unwrap().default_value.is_none(), "external default cleared");
    assert!(ns.input_slot(&proxy_path, 0).unwrap().default_value.is_none(), "proxy default cleared too");
}

#[test]
fn update_node_data_root_wrapper_still_works() {
    let mut graph = new_graph();
    let v3_id = create_node(&mut graph, "Vector3");

    graph
        .update_node_data(&v3_id, NodeData::Value(Payload::Vector3(9.0, 8.0, 7.0)))
        .expect("update_node_data root wrapper");

    let data = graph.node_data_at_path(&NodePath::root().child(v3_id)).expect("data set");
    assert!(matches!(data, NodeData::Value(Payload::Vector3(x, y, z)) if (*x, *y, *z) == (9.0, 8.0, 7.0)));
}

fn graph_with_subgraph_add_node() -> (Graph, NodePath) {
    let mut graph = new_graph();
    let sg_id = add_subgraph(&mut graph, "SG");
    let sg_path = NodePath::root().child(sg_id);
    let add_id = create_node_at(&mut graph, &sg_path, "Add");
    let add_path = sg_path.child(add_id);
    (graph, add_path)
}

#[test]
fn node_type_name_at_depth_2_returns_inner_type() {
    let (graph, add_path) = graph_with_subgraph_add_node();
    assert_eq!(graph.node_type_name_at(&add_path), Some("Add"));
}

#[test]
fn input_slot_count_at_depth_2_returns_inner_count() {
    let (graph, add_path) = graph_with_subgraph_add_node();
    assert_eq!(graph.input_slot_count_at(&add_path), AddNode::inputs().len());
}

#[test]
fn output_slot_count_at_depth_2_returns_inner_count() {
    let (graph, add_path) = graph_with_subgraph_add_node();
    assert_eq!(graph.output_slot_count_at(&add_path), AddNode::outputs().len());
}

#[test]
fn input_slot_info_at_depth_2_returns_label() {
    let (graph, add_path) = graph_with_subgraph_add_node();
    let info = graph.input_slot_info_at(&add_path, 0).expect("input slot 0 info");
    assert_eq!(info.label, "A");
    assert_eq!(info.data_type, DataType::Number);
}

#[test]
fn output_slot_info_at_depth_2_returns_label() {
    let (graph, add_path) = graph_with_subgraph_add_node();
    let info = graph.output_slot_info_at(&add_path, 0).expect("output slot 0 info");
    assert_eq!(info.label, "Sum");
    assert_eq!(info.data_type, DataType::Number);
}

#[test]
fn input_slot_data_type_at_depth_2_returns_type() {
    let (graph, add_path) = graph_with_subgraph_add_node();
    assert_eq!(graph.input_slot_data_type_at(&add_path, 0), Some(DataType::Number));
}

#[test]
fn edges_for_input_slot_at_depth_2_returns_connect_order() {
    let mut graph = new_graph();
    let sg_id = add_subgraph(&mut graph, "SG");
    let sg_path = NodePath::root().child(sg_id);
    let add_id = create_node_at(&mut graph, &sg_path, "AddList");
    let n1 = create_node_at(&mut graph, &sg_path, "Number");
    let n2 = create_node_at(&mut graph, &sg_path, "Number");
    let add_path = sg_path.child(add_id);
    let e1 = graph.connect_nodes_at(&sg_path.child(n1), 0, &add_path, 0).expect("connect n1");
    let e2 = graph.connect_nodes_at(&sg_path.child(n2), 0, &add_path, 0).expect("connect n2");

    assert_eq!(graph.edges_for_input_slot_at(&add_path, 0), vec![e1, e2]);
}

#[test]
fn edges_for_output_slot_at_depth_2_returns_connect_order() {
    let mut graph = new_graph();
    let sg_id = add_subgraph(&mut graph, "SG");
    let sg_path = NodePath::root().child(sg_id);
    let num_id = create_node_at(&mut graph, &sg_path, "Number");
    let a1 = create_node_at(&mut graph, &sg_path, "Add");
    let a2 = create_node_at(&mut graph, &sg_path, "Add");
    let num_path = sg_path.child(num_id);
    let e1 = graph.connect_nodes_at(&num_path, 0, &sg_path.child(a1), 0).expect("connect a1");
    let e2 = graph.connect_nodes_at(&num_path, 0, &sg_path.child(a2), 0).expect("connect a2");

    assert_eq!(graph.edges_for_output_slot_at(&num_path, 0), vec![e1, e2]);
}

#[test]
fn node_type_name_root_wrapper_still_works() {
    let mut graph = new_graph();
    let add_id = create_node(&mut graph, "Add");

    assert_eq!(graph.node_type_name(&add_id), Some("Add"));
    assert_eq!(graph.node_type_name_at(&NodePath::root().child(add_id)), Some("Add"));
}

#[test]
fn input_slot_inspector_visibility_round_trips() {
    let (mut graph, add_path) = graph_with_subgraph_add_node();
    assert_eq!(graph.input_slot_inspector_visible_at(&add_path, 0), Some(true));
    assert_eq!(graph.input_slot_inspector_visible_at(&add_path, 2), Some(false));
    let before = graph.structure_generation();
    assert!(graph.set_input_slot_inspector_visible_at(&add_path, 0, false));
    assert_eq!(graph.input_slot_inspector_visible_at(&add_path, 0), Some(false));
    assert_eq!(graph.structure_generation(), before, "visibility is not part of the shape");
    assert!(!graph.set_input_slot_inspector_visible_at(&add_path, 9, false));
    assert_eq!(graph.input_slot_inspector_visible_at(&add_path, 9), None);
}

#[test]
fn subgraph_external_slots_resolve_to_the_proxies() {
    let mut graph = new_graph();
    let sg_id = add_subgraph(&mut graph, "SG");
    graph.add_subgraph_input(&sg_id, "in", DataType::Number).expect("add input");
    graph.add_subgraph_output(&sg_id, "out", DataType::Number).expect("add output");
    let sg_path = NodePath::root().child(sg_id);
    let (in_proxy, out_proxy) = graph.subgraph_proxy_ids(&sg_id).expect("proxy ids");

    let (p, sid) = graph.subgraph_external_input_slot(&sg_path, 0).expect("input port");
    assert_eq!(p, sg_path.child(in_proxy));
    assert_eq!(Some(sid), graph.node_states().input_slot(&p, 0).map(|s| s.id));
    let (q, oid) = graph.subgraph_external_output_slot(&sg_path, 0).expect("output port");
    assert_eq!(q, sg_path.child(out_proxy));
    assert_eq!(Some(oid), graph.node_states().output_slot(&q, 0).map(|s| s.id));

    assert!(graph.subgraph_external_input_slot(&sg_path, 1).is_none());
    assert!(graph.subgraph_external_output_slot(&NodePath::root().child(NodeId::new()), 0).is_none());
}
