#![allow(dead_code)]
use cognet::{
    AddListNode, AddNode, DataType, NodeData, NodeGraph, NodeId, NodeMeta, NodePath, NumberNode,
    PayloadType, SlotDef,
};

/// A node payload: a number, or an opaque value of some domain.
#[derive(Debug, Clone, PartialEq)]
enum Payload {
    Number(f64),
    Vector3(f64, f64, f64),
    Other(&'static str),
}

impl PayloadType for Payload {
    fn payload_type(&self) -> DataType {
        match self {
            Payload::Number(_) => DataType::Number,
            Payload::Vector3(..) => DataType::Vector3,
            Payload::Other(domain) => DataType::Domain(domain),
        }
    }
}

type Graph = NodeGraph<Payload, f64>;

fn new_graph() -> Graph {
    NodeGraph::new()
}

/// The slot layout registered under a node type name.
fn layout(name: &str) -> (Vec<SlotDef>, Vec<SlotDef>) {
    match name {
        "Number" => (NumberNode::inputs(), NumberNode::outputs()),
        "Add" => (AddNode::inputs(), AddNode::outputs()),
        "AddList" => (AddListNode::inputs(), AddListNode::outputs()),
        "Vector3" => (Vec::new(), vec![SlotDef::new("Vector", DataType::Vector3, None)]),
        "Vec3InputTestNode" => (vec![SlotDef::new("In", DataType::Vector3, Some(1))], Vec::new()),
        _ => (Vec::new(), Vec::new()),
    }
}

/// Places a node of type `name` under a fresh id below `parent`.
fn create_node_at(g: &mut Graph, parent: &NodePath, name: &'static str) -> NodeId {
    let id = NodeId::new();
    let (inputs, outputs) = layout(name);
    g.add_node_at(&parent.child(id), name, None, None, &inputs, &outputs)
        .expect("add node");
    id
}

fn create_node(g: &mut Graph, name: &'static str) -> NodeId {
    create_node_at(g, &NodePath::root(), name)
}

fn add_subgraph(g: &mut Graph, label: &str) -> NodeId {
    g.add_subgraph_at(&NodePath::root(), label.to_string())
        .expect("add_subgraph_at")
}

fn input_labels_at(g: &Graph, path: &NodePath) -> Vec<&'static str> {
    let ns = g.node_states();
    (0..ns.input_slot_count(path))
        .map(|i| ns.input_slot(path, i).expect("slot").label)
        .collect()
}

fn output_labels_at(g: &Graph, path: &NodePath) -> Vec<&'static str> {
    let ns = g.node_states();
    (0..ns.output_slot_count(path))
        .map(|i| ns.output_slot(path, i).expect("slot").label)
        .collect()
}

/// The generation moves on wiring changes and stands still on data
/// writes and on the execution bookkeeping.
#[test]
fn structure_generation_moves_only_on_shape_changes() {
    let mut graph = new_graph();
    let start = graph.structure_generation();

    let sg = add_subgraph(&mut graph, "SG");
    let after_node = graph.structure_generation();
    assert!(after_node > start, "creating a node must move the counter");

    let sg_path = NodePath::root().child(sg);
    let a = create_node_at(&mut graph, &sg_path, "Number");
    let b = create_node_at(&mut graph, &sg_path, "Add");
    let after_children = graph.structure_generation();
    assert!(after_children > after_node);

    graph.connect_nodes_at(&sg_path.child(a), 0, &sg_path.child(b), 0).expect("connect a -> b");
    let after_edge = graph.structure_generation();
    assert!(after_edge > after_children, "an edge must move the counter");

    graph
        .update_node_data_at(&sg_path.child(a), NodeData::Value(Payload::Number(7.0)))
        .expect("write node data");
    assert_eq!(graph.structure_generation(), after_edge, "a node-data write must NOT move the counter");

    // The bookkeeping of one execution pass.
    let plan = graph.build_execution_plan().expect("plan");
    graph.begin_execution();
    graph.restore_dirty_for_failed(&plan.dirty_nodes);
    assert_eq!(graph.structure_generation(), after_edge, "execution must NOT move the counter");

    graph.remove_node_at(&sg_path.child(b)).expect("remove b");
    assert!(graph.structure_generation() > after_edge, "removing a node must move the counter");
}

#[test]
fn port_and_default_changes_move_the_generation() {
    let mut graph = new_graph();
    let sg = add_subgraph(&mut graph, "SG");
    let g0 = graph.structure_generation();
    graph.add_subgraph_input(&sg, "x", DataType::Number).expect("port");
    let g1 = graph.structure_generation();
    assert!(g1 > g0);
    graph.set_subgraph_input_default(&sg, 0, 1.0).expect("default");
    let g2 = graph.structure_generation();
    assert!(g2 > g1, "a default value is part of the shape");
    graph.rename_subgraph_input(&sg, "x", "y").expect("rename");
    let g3 = graph.structure_generation();
    assert!(g3 > g2);
    graph.remove_subgraph_input(&sg, 7).expect("nothing at 7");
    assert_eq!(graph.structure_generation(), g3, "removing nothing leaves the shape");
    graph.remove_subgraph_input(&sg, 0).expect("remove");
    assert!(graph.structure_generation() > g3);
}
