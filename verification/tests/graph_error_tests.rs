#![allow(dead_code)]
use cognet::{
    AddListNode, AddNode, DataType, ErrorTarget, GraphError, NodeGraph, NodeId, NodeMeta,
    NodePath, NumberNode, PayloadType, SlotDef,
};

/// A node payload: a number, or an opaque value of some domain.
#[derive(Debug, Clone, PartialEq)]
enum Payload {
    Number(f64),
    Vector3(f64, f64, f64),
    Other(&'static str),
}

impl PayloadType for Payload {
    fn payload_type(&self) -> DataType {
        match self {
            Payload::Number(_) => DataType::Number,
            Payload::Vector3(..) => DataType::Vector3,
            Payload::Other(domain) => DataType::Domain(domain),
        }
    }
}

type Graph = NodeGraph<Payload, f64>;

fn new_graph() -> Graph {
    NodeGraph::new()
}

/// The slot layout registered under a node type name.
fn layout(name: &str) -> (Vec<SlotDef>, Vec<SlotDef>) {
    match name {
        "Number" => (NumberNode::inputs(), NumberNode::outputs()),
        "Add" => (AddNode::inputs(), AddNode::outputs()),
        "AddList" => (AddListNode::inputs(), AddListNode::outputs()),
        "Vector3" => (Vec::new(), vec![SlotDef::new("Vector", DataType::Vector3, None)]),
        "Vec3InputTestNode" => (vec![SlotDef::new("In", DataType::Vector3, Some(1))], Vec::new()),
        _ => (Vec::new(), Vec::new()),
    }
}

/// Places a node of type `name` under a fresh id below `parent`.
fn create_node_at(g: &mut Graph, parent: &NodePath, name: &'static str) -> NodeId {
    let id = NodeId::new();
    let (inputs, outputs) = layout(name);
    g.add_node_at(&parent.child(id), name, None, None, &inputs, &outputs)
        .expect("add node");
    id
}

fn create_node(g: &mut Graph, name: &'static str) -> NodeId {
    create_node_at(g, &NodePath::root(), name)
}

fn add_subgraph(g: &mut Graph, label: &str) -> NodeId {
    g.add_subgraph_at(&NodePath::root(), label.to_string())
        .expect("add_subgraph_at")
}

fn input_labels_at(g: &Graph, path: &NodePath) -> Vec<&'static str> {
    let ns = g.node_states();
    (0..ns.input_slot_count(path))
        .map(|i| ns.input_slot(path, i).expect("slot").label)
        .collect()
}

fn output_labels_at(g: &Graph, path: &NodePath) -> Vec<&'static str> {
    let ns = g.node_states();
    (0..ns.output_slot_count(path))
        .map(|i| ns.output_slot(path, i).expect("slot").label)
        .collect()
}

#[test]
fn the_error_map_reads_back_what_was_written() {
    let mut g = new_graph();
    let n = NodeId::from_ulid(3);
    assert!(!g.has_errors());
    g.add_error(GraphError::node_not_found(n));
    g.add_error(GraphError::execution(NodeId::from_ulid(4), "oops".to_string()));
    assert!(g.has_errors());
    assert_eq!(g.error_for(&ErrorTarget::Node(n)).map(|e| e.message()), Some("Node not found".to_string()));
    g.clear_execution_errors();
    assert!(g.error_for(&ErrorTarget::Node(NodeId::from_ulid(4))).is_none());
    assert!(g.error_for(&ErrorTarget::Node(n)).is_some());
    g.clear_error(&ErrorTarget::Node(n));
    assert!(g.error_for(&ErrorTarget::Node(n)).is_none());
    g.add_error(GraphError::cycle_detected());
    g.clear_all_errors();
    assert!(!g.has_errors());
}

#[test]
fn placing_a_node_twice_at_one_path_is_refused() {
    let mut g = new_graph();
    let id = create_node(&mut g, "Number");
    let p = NodePath::root().child(id);
    let err = g
        .add_node_at(&p, "Number", None, None, &NumberNode::inputs(), &NumberNode::outputs())
        .expect_err("path taken");
    assert_eq!(err, format!("add_node_at_locked: path {} already registered", p.display_string()));
}

#[test]
fn writing_data_to_a_missing_node_names_its_path() {
    let mut g = new_graph();
    let p = NodePath::root().child(NodeId::from_ulid(1));
    let err = g.clear_node_data_at(&p).expect_err("missing");
    assert_eq!(err, format!("Node at path {} not found", p.display_string()));
}

#[test]
fn template_type_ids_are_kept_per_subgraph() {
    let mut g = new_graph();
    let sg = add_subgraph(&mut g, "SG");
    assert_eq!(g.subgraph_template_type_id(&sg), None);
    let t = std::any::TypeId::of::<u8>();
    g.set_subgraph_template_type_id(&sg, t).expect("set");
    assert_eq!(g.subgraph_template_type_id(&sg), Some(t));
    let plain = create_node(&mut g, "Number");
    assert!(g.set_subgraph_template_type_id(&plain, t).is_err());
}
