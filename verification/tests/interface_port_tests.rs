#![allow(dead_code)]
use cognet::{
    AddListNode, AddNode, DataType, InterfaceDirection, InterfaceNodeData, NodeData, NodeGraph,
    NodeId, NodeMeta, NodePath, NumberNode, PayloadType, SlotDef,
};

/// A node payload: a number, or an opaque value of some domain.
#[derive(Debug, Clone, PartialEq)]
enum Payload {
    Number(f64),
    Vector3(f64, f64, f64),
    Other(&'static str),
}

impl PayloadType for Payload {
    fn payload_type(&self) -> DataType {
        match self {
            Payload::Number(_) => DataType::Number,
            Payload::Vector3(..) => DataType::Vector3,
            Payload::Other(domain) => DataType::Domain(domain),
        }
    }
}

type Graph = NodeGraph<Payload, f64>;

fn new_graph() -> Graph {
    NodeGraph::new()
}

/// The slot layout registered under a node type name.
fn layout(name: &str) -> (Vec<SlotDef>, Vec<SlotDef>) {
    match name {
        "Number" => (NumberNode::inputs(), NumberNode::outputs()),
        "Add" => (AddNode::inputs(), AddNode::outputs()),
        "AddList" => (AddListNode::inputs(), AddListNode::outputs()),
        "Vector3" => (Vec::new(), vec![SlotDef::new("Vector", DataType::Vector3, None)]),
        "Vec3InputTestNode" => (vec![SlotDef::new("In", DataType::Vector3, Some(1))], Vec::new()),
        _ => (Vec::new(), Vec::new()),
    }
}

/// Places a node of type `name` under a fresh id below `parent`.
fn create_node_at(g: &mut Graph, parent: &NodePath, name: &'static str) -> NodeId {
    let id = NodeId::new();
    let (inputs, outputs) = layout(name);
    g.add_node_at(&parent.child(id), name, None, None, &inputs, &outputs)
        .expect("add node");
    id
}

fn create_node(g: &mut Graph, name: &'static str) -> NodeId {
    create_node_at(g, &NodePath::root(), name)
}

fn add_subgraph(g: &mut Graph, label: &str) -> NodeId {
    g.add_subgraph_at(&NodePath::root(), label.to_string())
        .expect("add_subgraph_at")
}

fn input_labels_at(g: &Graph, path: &NodePath) -> Vec<&'static str> {
    let ns = g.node_states();
    (0..ns.input_slot_count(path))
        .map(|i| ns.input_slot(path, i).expect("slot").label)
        .collect()
}

fn output_labels_at(g: &Graph, path: &NodePath) -> Vec<&'static str> {
    let ns = g.node_states();
    (0..ns.output_slot_count(path))
        .map(|i| ns.output_slot(path, i).expect("slot").label)
        .collect()
}

fn fresh_graph_with_interface_node() -> (Graph, NodeId) {
    let mut g = new_graph();
    let id = create_node(&mut g, "InterfaceNode");
    (g, id)
}

fn stamp_interface_data(g: &mut Graph, id: &NodeId, direction: InterfaceDirection, locked: &[&str]) {
    let data = InterfaceNodeData {
        direction,
        locked: locked.iter().map(|s| (*s).to_string()).collect(),
    };
    g.update_node_data(id, NodeData::Interface(data)).expect("stamp InterfaceNodeData");
}

fn locked_labels(g: &Graph, id: &NodeId) -> Vec<String> {
    match g.node_data(id) {
        Some(NodeData::Interface(d)) => {
            let mut v = d.locked.clone();
            v.sort();
            v
        }
        _ => panic!("InterfaceNodeData payload"),
    }
}

#[test]
fn add_unlocked_creates_matching_input_and_output_slot_pair() {
    let (mut g, id) = fresh_graph_with_interface_node();
    let idx = g.add_interface_port(&id, "foo", DataType::Number, false).expect("add_interface_port");
    assert_eq!(idx, 0);
    assert_eq!(g.input_slot_count(&id), 1);
    assert_eq!(g.output_slot_count(&id), 1);
    assert_eq!(g.input_slot_label(&id, 0), Some("foo"));
    assert_eq!(g.output_slot_label(&id, 0), Some("foo"));
    assert_eq!(g.input_slot_data_type(&id, 0), Some(DataType::Number));
    assert_eq!(g.output_slot_data_type(&id, 0), Some(DataType::Number));
}

#[test]
fn add_on_non_interface_node_returns_err() {
    let mut g = new_graph();
    let sg = create_node(&mut g, "SubGraph");
    let err = g
        .add_interface_port(&sg, "x", DataType::Number, false)
        .expect_err("must reject non-InterfaceNode");
    assert!(err.contains("not an InterfaceNode"), "got: {err}");
}

#[test]
fn add_locked_inserts_fresh_node_data_when_absent() {
    let (mut g, id) = fresh_graph_with_interface_node();
    g.add_interface_port(&id, "locked_one", DataType::Number, true).expect("add locked");
    assert!(g.node_data(&id).is_some(), "NodeData must exist after locked add");
    assert!(locked_labels(&g, &id).contains(&"locked_one".to_string()));
}

#[test]
fn add_locked_appends_to_existing_locked_set() {
    let (mut g, id) = fresh_graph_with_interface_node();
    stamp_interface_data(&mut g, &id, InterfaceDirection::Input, &["pre_existing"]);
    g.add_interface_port(&id, "new_locked", DataType::Number, true).expect("add locked");
    assert_eq!(
        locked_labels(&g, &id),
        vec!["new_locked".to_string(), "pre_existing".to_string()]
    );
}

#[test]
fn add_on_wrong_domain_node_data_returns_err_without_mutation() {
    let (mut g, id) = fresh_graph_with_interface_node();
    g.update_node_data(&id, NodeData::Value(Payload::Other("SomeOtherDomain")))
        .expect("stamp wrong-domain data");
    let err = g
        .add_interface_port(&id, "x", DataType::Number, true)
        .expect_err("must reject wrong-domain NodeData");
    assert!(err.contains("non-matching NodeData domain"), "got: {err}");
    assert_eq!(g.input_slot_count(&id), 0);
    assert_eq!(g.output_slot_count(&id), 0);
}

#[test]
fn remove_unlocked_drops_both_slot_sides() {
    let (mut g, id) = fresh_graph_with_interface_node();
    g.add_interface_port(&id, "rmme", DataType::Number, false).expect("add");
    g.remove_interface_port(&id, "rmme").expect("remove");
    assert_eq!(g.input_slot_count(&id), 0);
    assert_eq!(g.output_slot_count(&id), 0);
}

#[test]
fn remove_locked_returns_err_without_mutation() {
    let (mut g, id) = fresh_graph_with_interface_node();
    g.add_interface_port(&id, "locked", DataType::Number, true).expect("add locked");
    let err = g.remove_interface_port(&id, "locked").expect_err("locked rejection");
    assert!(err.contains("locked and cannot be removed"), "got: {err}");
    assert_eq!(g.input_slot_count(&id), 1);
    assert_eq!(g.output_slot_count(&id), 1);
}

#[test]
fn remove_unknown_label_returns_err() {
    let (mut g, id) = fresh_graph_with_interface_node();
    let err = g.remove_interface_port(&id, "nope").expect_err("must err on missing label");
    assert!(err.contains("has no port labelled"), "got: {err}");
}

#[test]
fn rename_renames_both_sides_keeping_slot_ids() {
    let (mut g, id) = fresh_graph_with_interface_node();
    g.add_interface_port(&id, "old", DataType::Number, false).expect("add");
    let in_id_before = g.input_slot_id(&id, 0).expect("slot id");
    g.rename_interface_port(&id, "old", "new").expect("rename");
    assert_eq!(g.input_slot_label(&id, 0), Some("new"));
    assert_eq!(g.output_slot_label(&id, 0), Some("new"));
    let in_id_after = g.input_slot_id(&id, 0).expect("slot id");
    assert_eq!(in_id_before, in_id_after, "slot id must be stable across rename");
}

#[test]
fn rename_locked_returns_err() {
    let (mut g, id) = fresh_graph_with_interface_node();
    g.add_interface_port(&id, "locked", DataType::Number, true).expect("add locked");
    let err = g.rename_interface_port(&id, "locked", "other").expect_err("locked rename rejection");
    assert!(err.contains("locked and cannot be renamed"), "got: {err}");
}

#[test]
fn rename_to_existing_label_returns_err() {
    let (mut g, id) = fresh_graph_with_interface_node();
    g.add_interface_port(&id, "a", DataType::Number, false).expect("add a");
    g.add_interface_port(&id, "b", DataType::Number, false).expect("add b");
    let err = g.rename_interface_port(&id, "a", "b").expect_err("must reject duplicate target");
    assert!(err.contains("already has a port labelled"), "got: {err}");
}

#[test]
fn remove_on_absent_node_data_treats_locked_as_empty_and_succeeds() {
    let (mut g, id) = fresh_graph_with_interface_node();
    g.add_interface_port(&id, "x", DataType::Number, false).expect("add unlocked");
    assert!(g.node_data(&id).is_none());
    g.remove_interface_port(&id, "x").expect("remove");
}

#[test]
fn interface_port_on_a_missing_node_names_it() {
    let mut g = new_graph();
    let ghost = NodeId::from_ulid(5);
    let err = g.add_interface_port(&ghost, "x", DataType::Number, false).expect_err("no such node");
    assert_eq!(err, format!("Node NodeId(Ulid({})) not found", ghost.id()));
    assert_eq!(err, "Node NodeId(Ulid(5)) not found");
}

#[test]
fn remove_drops_the_edges_on_either_side_of_the_removed_port() {
    let (mut g, id) = fresh_graph_with_interface_node();
    g.add_interface_port(&id, "p", DataType::Number, false).expect("add p");
    g.add_interface_port(&id, "q", DataType::Number, false).expect("add q");
    let source = create_node(&mut g, "Number");
    let sink = create_node(&mut g, "Add");
    let iface = NodePath::root().child(id);
    let source_path = NodePath::root().child(source);
    let sink_path = NodePath::root().child(sink);

    let into_p = g.create_edge_at(&source_path, 0, &iface, 0).expect("edge into p");
    let into_p = g.add_edge(into_p).expect("add edge into p");
    let out_of_p = g.create_edge_at(&iface, 0, &sink_path, 0).expect("edge out of p");
    let out_of_p = g.add_edge(out_of_p).expect("add edge out of p");
    let into_q = g.create_edge_at(&source_path, 0, &iface, 1).expect("edge into q");
    let into_q = g.add_edge(into_q).expect("add edge into q");

    g.remove_interface_port(&id, "p").expect("remove p");

    assert!(g.get_edge_by_id(&into_p).is_none());
    assert!(g.get_edge_by_id(&out_of_p).is_none());
    let kept = g.get_edge_by_id(&into_q).expect("edge into q stays");
    assert_eq!(kept.to_input_slot_index, 0);
    assert_eq!(g.input_slot_count(&id), 1);
    assert_eq!(g.output_slot_count(&id), 1);
    assert_eq!(input_labels_at(&g, &iface), vec!["q"]);
    assert_eq!(output_labels_at(&g, &iface), vec!["q"]);
}

#[test]
fn add_on_a_number_node_with_uneven_slots_names_the_type() {
    let mut g = new_graph();
    let id = create_node(&mut g, "Number");
    let err = g.add_interface_port(&id, "x", DataType::Number, false).unwrap_err();
    assert!(err.contains("is not an InterfaceNode"), "got: {err}");
}

#[test]
fn remove_marks_the_port_owner_and_the_targets_of_dropped_edges_changed() {
    let (mut g, id) = fresh_graph_with_interface_node();
    g.add_interface_port(&id, "p", DataType::Number, false).expect("add p");
    let source = create_node(&mut g, "Number");
    let sink = create_node(&mut g, "Add");
    let bystander = create_node(&mut g, "Add");
    let iface = NodePath::root().child(id);
    let source_path = NodePath::root().child(source);
    let sink_path = NodePath::root().child(sink);
    let into_p = g.create_edge_at(&source_path, 0, &iface, 0).expect("edge into p");
    g.add_edge(into_p).expect("add edge into p");
    let out_of_p = g.create_edge_at(&iface, 0, &sink_path, 0).expect("edge out of p");
    g.add_edge(out_of_p).expect("add edge out of p");
    g.drain_changed();

    g.remove_interface_port(&id, "p").expect("remove p");

    let mut changed = g.node_states().peek_changed_nodes();
    changed.sort_by_key(|p| p.display_string());
    let mut expected = vec![iface, sink_path];
    expected.sort_by_key(|p| p.display_string());
    assert_eq!(changed, expected);
    assert!(!g.node_states().peek_changed_nodes().contains(&NodePath::root().child(bystander)));
}
