#![allow(dead_code)]
use cognet::{
    AddListNode, AddNode, DataType, EdgeId, NodeGraph, NodeId, NodeMeta, NodePath, NumberNode,
    PayloadType, SlotDef,
};

/// A node payload: a number, or an opaque value of some domain.
#[derive(Debug, Clone, PartialEq)]
enum Payload {
    Number(f64),
    Vector3(f64, f64, f64),
    Other(&'static str),
}

impl PayloadType for Payload {
    fn payload_type(&self) -> DataType {
        match self {
            Payload::Number(_) => DataType::Number,
            Payload::Vector3(..) => DataType::Vector3,
            Payload::Other(domain) => DataType::Domain(domain),
        }
    }
}

type Graph = NodeGraph<Payload, f64>;

fn new_graph() -> Graph {
    NodeGraph::new()
}

/// The slot layout registered under a node type name.
fn layout(name: &str) -> (Vec<SlotDef>, Vec<SlotDef>) {
    match name {
        "Number" => (NumberNode::inputs(), NumberNode::outputs()),
        "Add" => (AddNode::inputs(), AddNode::outputs()),
        "AddList" => (AddListNode::inputs(), AddListNode::outputs()),
        "Vector3" => (Vec::new(), vec![SlotDef::new("Vector", DataType::Vector3, None)]),
        "Vec3InputTestNode" => (vec![SlotDef::new("In", DataType::Vector3, Some(1))], Vec::new()),
        _ => (Vec::new(), Vec::new()),
    }
}

/// Places a node of type `name` under a fresh id below `parent`.
fn create_node_at(g: &mut Graph, parent: &NodePath, name: &'static str) -> NodeId {
    let id = NodeId::new();
    let (inputs, outputs) = layout(name);
    g.add_node_at(&parent.child(id), name, None, None, &inputs, &outputs)
        .expect("add node");
    id
}

fn create_node(g: &mut Graph, name: &'static str) -> NodeId {
    create_node_at(g, &NodePath::root(), name)
}

fn add_subgraph(g: &mut Graph, label: &str) -> NodeId {
    g.add_subgraph_at(&NodePath::root(), label.to_string())
        .expect("add_subgraph_at")
}

fn input_labels_at(g: &Graph, path: &NodePath) -> Vec<&'static str> {
    let ns = g.node_states();
    (0..ns.input_slot_count(path))
        .map(|i| ns.input_slot(path, i).expect("slot").label)
        .collect()
}

fn output_labels_at(g: &Graph, path: &NodePath) -> Vec<&'static str> {
    let ns = g.node_states();
    (0..ns.output_slot_count(path))
        .map(|i| ns.output_slot(path, i).expect("slot").label)
        .collect()
}

#[test]
fn test_node_ids() {
    let mut graph = new_graph();
    assert!(graph.node_ids().is_empty());

    let id1 = create_node(&mut graph, "Number");
    let id2 = create_node(&mut graph, "Number");

    let ids = graph.node_ids();
    assert_eq!(ids.len(), 2);
    assert!(ids.contains(&id1));
    assert!(ids.contains(&id2));
}

#[test]
fn test_edges_info() {
    let mut graph = new_graph();
    let num = create_node(&mut graph, "Number");
    let add = create_node(&mut graph, "Add");

    let edge_id = graph.connect_nodes(&num, 0, &add, 0).expect("connect nodes");

    let edges = graph.edges_info();
    assert_eq!(edges.len(), 1);
    assert_eq!(edges[0].id, edge_id);
    assert_eq!(edges[0].from_node, NodePath::root().child(num));
    assert_eq!(edges[0].from_output, 0);
    assert_eq!(edges[0].to_node, NodePath::root().child(add));
    assert_eq!(edges[0].to_input, 0);
}

#[test]
fn test_edge_info() {
    let mut graph = new_graph();
    let num = create_node(&mut graph, "Number");
    let add = create_node(&mut graph, "Add");

    let edge_id = graph.connect_nodes(&num, 0, &add, 0).expect("connect nodes");

    let info = graph.edge_info(&edge_id).expect("edge exists");
    assert_eq!(info.from_node, NodePath::root().child(num));
    assert_eq!(info.to_node, NodePath::root().child(add));

    let fake_id = EdgeId::new();
    assert!(graph.edge_info(&fake_id).is_none());
}

#[test]
fn test_add_and_get_node() {
    let mut graph = new_graph();
    let node_id = create_node(&mut graph, "Add");

    assert!(graph.has_node(&node_id));
}

#[test]
fn test_remove_node() {
    let mut graph = new_graph();
    let node_id = create_node(&mut graph, "Add");

    assert!(graph.remove_node(node_id).is_ok());
    assert!(!graph.has_node(&node_id));
}

#[test]
fn test_add_and_get_edge() {
    let mut graph = new_graph();
    let node1_id = create_node(&mut graph, "Add");
    let node2_id = create_node(&mut graph, "Add");

    let edge_1_2 = graph
        .create_edge_at(&NodePath::root().child(node1_id), 0, &NodePath::root().child(node2_id), 0)
        .unwrap();
    let edge_id = graph.add_edge(edge_1_2).unwrap();

    assert!(graph.get_edge_by_id(&edge_id).is_some());
}

#[test]
fn test_remove_edge() {
    let mut graph = new_graph();
    let node1_id = create_node(&mut graph, "Add");
    let node2_id = create_node(&mut graph, "Add");

    let edge_1_2 = graph
        .create_edge_at(&NodePath::root().child(node1_id), 0, &NodePath::root().child(node2_id), 0)
        .unwrap();
    let edge_id = graph.add_edge(edge_1_2).unwrap();

    assert!(graph.remove_edge(edge_id).is_ok());
    assert!(graph.get_edge_by_id(&edge_id).is_none());
}

#[test]
fn root_level_slot_queries_read_the_node_at_the_root_path() {
    let mut graph = new_graph();
    let add = create_node(&mut graph, "Add");
    assert_eq!(graph.input_slot_count(&add), 4);
    assert_eq!(graph.output_slot_count(&add), 2);
    assert_eq!(graph.input_slot_label(&add, 1), Some("B"));
    assert_eq!(graph.output_slot_label(&add, 1), Some("Sums"));
    assert_eq!(graph.input_slot_inspector_visible(&add, 3), Some(false));
    assert_eq!(graph.input_slot_label(&add, 4), None);
    let info = graph.output_slot_info(&add, 0).expect("info");
    assert_eq!(info.label, "Sum");
    graph.update_input_slot_default_data(&add, 1, 2.5).expect("default");
    assert_eq!(graph.input_slot_default_value(&add, 1), Some(&2.5));
    let full = graph.input_slot_info(&add, 1).expect("info");
    assert_eq!(full.default_value, Some(2.5));
    assert_eq!(Some(full.id), graph.input_slot_id(&add, 1));
}

#[test]
fn update_edge_replaces_the_edge_under_the_same_id() {
    let mut graph = new_graph();
    let a = create_node(&mut graph, "Number");
    let b = create_node(&mut graph, "Number");
    let add = create_node(&mut graph, "Add");
    let id = graph.connect_nodes(&a, 0, &add, 0).expect("connect");
    let replacement = graph
        .create_edge_at(&NodePath::root().child(b), 0, &NodePath::root().child(add), 1)
        .expect("edge");
    graph.update_edge(id, replacement).expect("update");
    let e = graph.get_edge_by_id(&id).expect("same id");
    assert_eq!(e.from_node, NodePath::root().child(b));
    assert_eq!(e.to_input_slot_index, 1);
    assert_eq!(graph.edges_for_input_slot(&add, 0), Vec::<EdgeId>::new());
    assert_eq!(graph.edges_for_input_slot(&add, 1), vec![id]);

    let missing = EdgeId::from_ulid(7);
    let e2 = graph
        .create_edge_at(&NodePath::root().child(a), 0, &NodePath::root().child(add), 0)
        .expect("edge");
    assert_eq!(graph.update_edge(missing, e2), Err("Edge does not exist"));
}

#[test]
fn reordering_an_input_edge_moves_it_in_the_slot_list() {
    let mut graph = new_graph();
    let sink = create_node(&mut graph, "AddList");
    let n1 = create_node(&mut graph, "Number");
    let n2 = create_node(&mut graph, "Number");
    let n3 = create_node(&mut graph, "Number");
    let e1 = graph.connect_nodes(&n1, 0, &sink, 0).expect("e1");
    let e2 = graph.connect_nodes(&n2, 0, &sink, 0).expect("e2");
    let e3 = graph.connect_nodes(&n3, 0, &sink, 0).expect("e3");
    assert!(graph.reorder_input_edge(&e3, 0));
    assert_eq!(graph.edges_for_input_slot(&sink, 0), vec![e3, e1, e2]);
    assert!(graph.reorder_input_edge(&e3, 99));
    assert_eq!(graph.edges_for_input_slot(&sink, 0), vec![e1, e2, e3]);
    assert!(!graph.reorder_input_edge(&EdgeId::from_ulid(1), 0));
    assert_eq!(graph.outgoing_edges(&n1), vec![e1]);
}

#[test]
fn add_edge_with_id_refuses_an_id_already_in_use() {
    let mut graph = new_graph();
    let a = create_node(&mut graph, "Add");
    let b = create_node(&mut graph, "Add");
    let first = graph
        .create_edge_at(&NodePath::root().child(a), 0, &NodePath::root().child(b), 0)
        .unwrap();
    let second = graph
        .create_edge_at(&NodePath::root().child(a), 0, &NodePath::root().child(b), 1)
        .unwrap();
    let id = EdgeId::new();
    assert_eq!(graph.add_edge_with_id(first, id), Ok(id));
    let refused = graph.add_edge_with_id(second, id);
    assert_eq!(refused, Err("add_edge: edge id already in use".to_string()));
    assert_eq!(graph.get_edge_by_id(&id).map(|e| e.to_input_slot_index), Some(0));
}

#[test]
fn removing_a_fresh_edge_restores_every_connection_list() {
    let mut graph = new_graph();
    let a = create_node(&mut graph, "Add");
    let b = create_node(&mut graph, "Add");
    let (pa, pb) = (NodePath::root().child(a), NodePath::root().child(b));
    let keep = graph.create_edge_at(&pa, 0, &pb, 0).unwrap();
    graph.add_edge(keep).unwrap();
    let before_out = graph.node_states().outgoing_edges_at(&pa);
    let before_in = graph.node_states().incoming_edges_at(&pb);
    let extra = graph.create_edge_at(&pa, 0, &pb, 1).unwrap();
    let id = graph.add_edge(extra).unwrap();
    graph.remove_edge(id).unwrap();
    assert_eq!(graph.node_states().outgoing_edges_at(&pa), before_out);
    assert_eq!(graph.node_states().incoming_edges_at(&pb), before_in);
}
