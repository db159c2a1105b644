#![allow(dead_code)]
use cognet::planning::downstream_of;
use cognet::{
    AddListNode, AddNode, DataType, NodeGraph, NodeId, NodeMeta, NodePath, NumberNode,
    PayloadType, SlotDef,
};

/// A node payload: a number, or an opaque value of some domain.
#[derive(Debug, Clone, PartialEq)]
enum Payload {
    Number(f64),
    Vector3(f64, f64, f64),
    Other(&'static str),
}

impl PayloadType for Payload {
    fn payload_type(&self) -> DataType {
        match self {
            Payload::Number(_) => DataType::Number,
            Payload::Vector3(..) => DataType::Vector3,
            Payload::Other(domain) => DataType::Domain(domain),
        }
    }
}

type Graph = NodeGraph<Payload, f64>;

fn new_graph() -> Graph {
    NodeGraph::new()
}

/// The slot layout registered under a node type name.
fn layout(name: &str) -> (Vec<SlotDef>, Vec<SlotDef>) {
    match name {
        "Number" => (NumberNode::inputs(), NumberNode::outputs()),
        "Add" => (AddNode::inputs(), AddNode::outputs()),
        "AddList" => (AddListNode::inputs(), AddListNode::outputs()),
        "Vector3" => (Vec::new(), vec![SlotDef::new("Vector", DataType::Vector3, None)]),
        "Vec3InputTestNode" => (vec![SlotDef::new("In", DataType::Vector3, Some(1))], Vec::new()),
        _ => (Vec::new(), Vec::new()),
    }
}

/// Places a node of type `name` under a fresh id below `parent`.
fn create_node_at(g: &mut Graph, parent: &NodePath, name: &'static str) -> NodeId {
    let id = NodeId::new();
    let (inputs, outputs) = layout(name);
    g.add_node_at(&parent.child(id), name, None, None, &inputs, &outputs)
        .expect("add node");
    id
}

fn create_node(g: &mut Graph, name: &'static str) -> NodeId {
    create_node_at(g, &NodePath::root(), name)
}

fn add_subgraph(g: &mut Graph, label: &str) -> NodeId {
    g.add_subgraph_at(&NodePath::root(), label.to_string())
        .expect("add_subgraph_at")
}

fn input_labels_at(g: &Graph, path: &NodePath) -> Vec<&'static str> {
    let ns = g.node_states();
    (0..ns.input_slot_count(path))
        .map(|i| ns.input_slot(path, i).expect("slot").label)
        .collect()
}

fn output_labels_at(g: &Graph, path: &NodePath) -> Vec<&'static str> {
    let ns = g.node_states();
    (0..ns.output_slot_count(path))
        .map(|i| ns.output_slot(path, i).expect("slot").label)
        .collect()
}

#[test]
fn disconnecting_a_fresh_connection_restores_the_edge_tables() {
    let mut g = new_graph();
    let a = create_node(&mut g, "Number");
    let sink = create_node(&mut g, "AddList");
    let b = create_node(&mut g, "Number");
    let keep = g.connect_nodes(&a, 0, &sink, 0).expect("keep");
    let before_in = g.edges_for_input_slot(&sink, 0);
    let before_out = g.edges_for_output_slot(&b, 0);
    let before_all = g.edges_info().len();

    let id = g.connect_nodes(&b, 0, &sink, 0).expect("connect");
    g.remove_edge(id).expect("disconnect");

    assert_eq!(g.edges_for_input_slot(&sink, 0), before_in);
    assert_eq!(g.edges_for_input_slot(&sink, 0), vec![keep]);
    assert_eq!(g.edges_for_output_slot(&b, 0), before_out);
    assert_eq!(g.edges_info().len(), before_all);
    assert!(g.outgoing_edges(&b).is_empty());
}

#[test]
fn closing_a_downstream_set_again_changes_nothing() {
    let mut g = new_graph();
    let n = create_node(&mut g, "Number");
    let a1 = create_node(&mut g, "Add");
    let a2 = create_node(&mut g, "Add");
    let lone = create_node(&mut g, "Number");
    g.connect_nodes(&n, 0, &a1, 0).expect("n -> a1");
    g.connect_nodes(&a1, 0, &a2, 1).expect("a1 -> a2");
    let once = downstream_of(g.node_states(), &vec![NodePath::root().child(n)]);
    let twice = downstream_of(g.node_states(), &once);
    assert_eq!(once.len(), 3);
    assert_eq!(twice.len(), once.len());
    assert!(once.iter().all(|p| twice.contains(p)));
    assert!(!once.contains(&NodePath::root().child(lone)));
}

#[test]
fn removing_and_reinserting_an_output_port_restores_the_layout() {
    let mut g = new_graph();
    let sg = add_subgraph(&mut g, "S");
    for label in ["p", "q"] {
        g.add_subgraph_output(&sg, label, DataType::Bool).expect("port");
    }
    let sg_path = NodePath::root().child(sg);
    let before = output_labels_at(&g, &sg_path);
    g.remove_subgraph_output(&sg, 0).expect("remove");
    g.insert_subgraph_output_at(&sg, 0, "p", DataType::Bool).expect("insert");
    assert_eq!(output_labels_at(&g, &sg_path), before);
    assert_eq!(g.node_states().output_slot(&sg_path, 0).map(|s| s.data_type), Some(DataType::Bool));
}
