#![allow(dead_code)]
use cognet::{
    AddListNode, AddNode, DataType, EdgeId, ErrorTarget, NodeGraph, NodeId, NodeMeta, NodePath,
    NumberNode, PayloadType, SlotDef,
};

/// A node payload: a number, or an opaque value of some domain.
#[derive(Debug, Clone, PartialEq)]
enum Payload {
    Number(f64),
    Vector3(f64, f64, f64),
    Other(&'static str),
}

impl PayloadType for Payload {
    fn payload_type(&self) -> DataType {
        match self {
            Payload::Number(_) => DataType::Number,
            Payload::Vector3(..) => DataType::Vector3,
            Payload::Other(domain) => DataType::Domain(domain),
        }
    }
}

type Graph = NodeGraph<Payload, f64>;

fn new_graph() -> Graph {
    NodeGraph::new()
}

/// The slot layout registered under a node type name.
fn layout(name: &str) -> (Vec<SlotDef>, Vec<SlotDef>) {
    match name {
        "Number" => (NumberNode::inputs(), NumberNode::outputs()),
        "Add" => (AddNode::inputs(), AddNode::outputs()),
        "AddList" => (AddListNode::inputs(), AddListNode::outputs()),
        "Vector3" => (Vec::new(), vec![SlotDef::new("Vector", DataType::Vector3, None)]),
        "Vec3InputTestNode" => (vec![SlotDef::new("In", DataType::Vector3, Some(1))], Vec::new()),
        _ => (Vec::new(), Vec::new()),
    }
}

/// Places a node of type `name` under a fresh id below `parent`.
fn create_node_at(g: &mut Graph, parent: &NodePath, name: &'static str) -> NodeId {
    let id = NodeId::new();
    let (inputs, outputs) = layout(name);
    g.add_node_at(&parent.child(id), name, None, None, &inputs, &outputs)
        .expect("add node");
    id
}

fn create_node(g: &mut Graph, name: &'static str) -> NodeId {
    create_node_at(g, &NodePath::root(), name)
}

fn add_subgraph(g: &mut Graph, label: &str) -> NodeId {
    g.add_subgraph_at(&NodePath::root(), label.to_string())
        .expect("add_subgraph_at")
}

fn input_labels_at(g: &Graph, path: &NodePath) -> Vec<&'static str> {
    let ns = g.node_states();
    (0..ns.input_slot_count(path))
        .map(|i| ns.input_slot(path, i).expect("slot").label)
        .collect()
}

fn output_labels_at(g: &Graph, path: &NodePath) -> Vec<&'static str> {
    let ns = g.node_states();
    (0..ns.output_slot_count(path))
        .map(|i| ns.output_slot(path, i).expect("slot").label)
        .collect()
}

#[test]
fn connect_nodes_at_two_subgraph_children_creates_edge_at_depth_2() {
    let mut graph = new_graph();
    let sg_id = add_subgraph(&mut graph, "SG");
    let sg_path = NodePath::root().child(sg_id);

    let num_id = create_node_at(&mut graph, &sg_path, "Number");
    let add_id = create_node_at(&mut graph, &sg_path, "Add");

    let from_path = sg_path.child(num_id);
    let to_path = sg_path.child(add_id);
    let edge_id = graph.connect_nodes_at(&from_path, 0, &to_path, 0).expect("connect_nodes_at");

    let edge = graph.get_edge_by_id(&edge_id).expect("edge exists");
    assert_eq!(edge.from_node, from_path, "from_node must be depth-2 path");
    assert_eq!(edge.to_node, to_path, "to_node must be depth-2 path");
}

#[test]
fn connect_nodes_root_wrapper_still_works() {
    let mut graph = new_graph();
    let num_id = create_node(&mut graph, "Number");
    let add_id = create_node(&mut graph, "Add");

    let edge_id = graph.connect_nodes(&num_id, 0, &add_id, 0).expect("connect_nodes root");

    let edge = graph.get_edge_by_id(&edge_id).expect("edge exists");
    assert_eq!(edge.from_node, NodePath::root().child(num_id));
    assert_eq!(edge.to_node, NodePath::root().child(add_id));
}

#[test]
fn input_edge_to_subgraph_external_slot_is_routed_to_input_proxy() {
    let mut graph = new_graph();
    let sg_id = add_subgraph(&mut graph, "SG");
    graph.add_subgraph_input(&sg_id, "height", DataType::Number).expect("add input");

    let num_id = create_node(&mut graph, "Number");
    let edge_id = graph.connect_nodes(&num_id, 0, &sg_id, 0).expect("connect external to SubGraph external slot");

    let edge = graph.get_edge_by_id(&edge_id).expect("edge exists");
    let (input_proxy_id, _) = graph.subgraph_proxy_ids(&sg_id).expect("proxy ids");
    let expected_to = NodePath::root().child(sg_id).child(input_proxy_id);
    assert_eq!(edge.to_node, expected_to, "edge target must be retargeted to InputProxy");
    assert_eq!(edge.to_input_slot_index, 0);
}

#[test]
fn output_edge_from_subgraph_external_slot_is_routed_from_output_proxy() {
    let mut graph = new_graph();
    let sg_id = add_subgraph(&mut graph, "SG");
    graph.add_subgraph_output(&sg_id, "result", DataType::Number).expect("add output");

    let consumer_id = create_node(&mut graph, "Add");
    let edge_id = graph.connect_nodes(&sg_id, 0, &consumer_id, 0).expect("connect SubGraph output to consumer");

    let edge = graph.get_edge_by_id(&edge_id).expect("edge exists");
    let (_, output_proxy_id) = graph.subgraph_proxy_ids(&sg_id).expect("proxy ids");
    let expected_from = NodePath::root().child(sg_id).child(output_proxy_id);
    assert_eq!(edge.from_node, expected_from, "edge source must be retargeted to OutputProxy");
    assert_eq!(edge.from_output_slot_index, 0);
}

#[test]
fn edge_between_two_subgraphs_rewrites_both_endpoints() {
    let mut graph = new_graph();
    let sg_a = add_subgraph(&mut graph, "A");
    let sg_b = add_subgraph(&mut graph, "B");
    graph.add_subgraph_output(&sg_a, "out", DataType::Number).expect("add A output");
    graph.add_subgraph_input(&sg_b, "in", DataType::Number).expect("add B input");

    let edge_id = graph.connect_nodes(&sg_a, 0, &sg_b, 0).expect("connect A.out -> B.in");

    let edge = graph.get_edge_by_id(&edge_id).expect("edge exists");
    let (_, a_output_proxy) = graph.subgraph_proxy_ids(&sg_a).expect("A proxies");
    let (b_input_proxy, _) = graph.subgraph_proxy_ids(&sg_b).expect("B proxies");
    assert_eq!(edge.from_node, NodePath::root().child(sg_a).child(a_output_proxy));
    assert_eq!(edge.to_node, NodePath::root().child(sg_b).child(b_input_proxy));
}

#[test]
fn routed_edge_is_indexed_under_input_proxy_slot_id_not_subgraph_external() {
    let mut graph = new_graph();
    let sg_id = add_subgraph(&mut graph, "SG");
    graph.add_subgraph_input(&sg_id, "x", DataType::Number).expect("add input");

    let num_id = create_node(&mut graph, "Number");
    let edge_id = graph.connect_nodes(&num_id, 0, &sg_id, 0).expect("connect external -> SubGraph external slot");

    let edge = graph.get_edge_by_id(&edge_id).expect("edge stored");
    let (input_proxy_id, _) = graph.subgraph_proxy_ids(&sg_id).expect("proxy ids");
    let proxy_path = NodePath::root().child(sg_id).child(input_proxy_id);
    assert_eq!(edge.to_node, proxy_path);

    let input_proxy_slot = graph.node_states().input_slot(&proxy_path, 0).expect("InputProxy slot exists");
    assert_eq!(edge.to_input_slot_id, input_proxy_slot.id);
}

#[test]
fn routed_edge_is_indexed_under_output_proxy_slot_id_not_subgraph_external() {
    let mut graph = new_graph();
    let sg_id = add_subgraph(&mut graph, "SG");
    graph.add_subgraph_output(&sg_id, "y", DataType::Number).expect("add output");

    let consumer_id = create_node(&mut graph, "Add");
    let edge_id = graph.connect_nodes(&sg_id, 0, &consumer_id, 0).expect("connect SubGraph output -> consumer");

    let edge = graph.get_edge_by_id(&edge_id).expect("edge stored");
    let (_, output_proxy_id) = graph.subgraph_proxy_ids(&sg_id).expect("proxy ids");
    let proxy_path = NodePath::root().child(sg_id).child(output_proxy_id);
    assert_eq!(edge.from_node, proxy_path);

    let output_proxy_slot = graph.node_states().output_slot(&proxy_path, 0).expect("OutputProxy slot exists");
    assert_eq!(edge.from_output_slot_id, output_proxy_slot.id);
}

#[test]
fn edges_to_non_subgraph_nodes_are_unchanged() {
    let mut graph = new_graph();
    let num_id = create_node(&mut graph, "Number");
    let add_id = create_node(&mut graph, "Add");

    let edge_id = graph.connect_nodes(&num_id, 0, &add_id, 0).expect("connect");

    let edge = graph.get_edge_by_id(&edge_id).expect("edge exists");
    assert_eq!(edge.from_node, NodePath::root().child(num_id));
    assert_eq!(edge.to_node, NodePath::root().child(add_id));
}

#[test]
fn a_refused_connection_records_its_error_on_the_target_port() {
    let mut graph = new_graph();
    let num_id = create_node(&mut graph, "Number");
    let add_id = create_node(&mut graph, "Add");
    // Slot 2 of Add is the list form: a Number output does not fit it.
    let err = graph.connect_nodes(&num_id, 0, &add_id, 2).expect_err("type mismatch");
    assert_eq!(err, "Type mismatch: cannot connect Number to List(Number)");
    let target = ErrorTarget::InputPort { node_id: add_id, slot_index: 2 };
    assert!(graph.error_for(&target).is_some());
    assert!(graph.has_errors());

    // A second connection into a one-connection slot is refused too.
    let other = create_node(&mut graph, "Number");
    graph.connect_nodes(&num_id, 0, &add_id, 0).expect("first connection");
    let err = graph.connect_nodes(&other, 0, &add_id, 0).expect_err("limit");
    assert_eq!(err, "Connection limit exceeded: maximum 1 connection(s)");

    // Out-of-range slots are refused before anything is recorded.
    let err = graph.connect_nodes(&num_id, 5, &add_id, 0).expect_err("no output 5");
    assert_eq!(err, "Invalid output slot index");
}

#[test]
fn removing_an_unknown_edge_names_it() {
    let mut graph = new_graph();
    let id = EdgeId::from_ulid(42);
    let err = graph.remove_edge(id).expect_err("no such edge");
    assert_eq!(err, "Edge does not exist: id: EdgeId(Ulid(42))");
}
