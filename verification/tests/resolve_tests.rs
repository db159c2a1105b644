#![allow(dead_code)]
use cognet::{
    input_values, output_values, resolve_value, AddListNode, AddNode, AssocMap, DataType,
    NodeGraph, NodeId, NodeMeta, NodePath, NumberNode, OutputSlotId, PayloadType, SlotDef,
};

/// A node payload: a number, or an opaque value of some domain.
#[derive(Debug, Clone, PartialEq)]
enum Payload {
    Number(f64),
    Vector3(f64, f64, f64),
    Other(&'static str),
}

impl PayloadType for Payload {
    fn payload_type(&self) -> DataType {
        match self {
            Payload::Number(_) => DataType::Number,
            Payload::Vector3(..) => DataType::Vector3,
            Payload::Other(domain) => DataType::Domain(domain),
        }
    }
}

type Graph = NodeGraph<Payload, f64>;

fn new_graph() -> Graph {
    NodeGraph::new()
}

/// The slot layout registered under a node type name.
fn layout(name: &str) -> (Vec<SlotDef>, Vec<SlotDef>) {
    match name {
        "Number" => (NumberNode::inputs(), NumberNode::outputs()),
        "Add" => (AddNode::inputs(), AddNode::outputs()),
        "AddList" => (AddListNode::inputs(), AddListNode::outputs()),
        "Vector3" => (Vec::new(), vec![SlotDef::new("Vector", DataType::Vector3, None)]),
        "Vec3InputTestNode" => (vec![SlotDef::new("In", DataType::Vector3, Some(1))], Vec::new()),
        _ => (Vec::new(), Vec::new()),
    }
}

/// Places a node of type `name` under a fresh id below `parent`.
fn create_node_at(g: &mut Graph, parent: &NodePath, name: &'static str) -> NodeId {
    let id = NodeId::new();
    let (inputs, outputs) = layout(name);
    g.add_node_at(&parent.child(id), name, None, None, &inputs, &outputs)
        .expect("add node");
    id
}

fn create_node(g: &mut Graph, name: &'static str) -> NodeId {
    create_node_at(g, &NodePath::root(), name)
}

fn add_subgraph(g: &mut Graph, label: &str) -> NodeId {
    g.add_subgraph_at(&NodePath::root(), label.to_string())
        .expect("add_subgraph_at")
}

fn input_labels_at(g: &Graph, path: &NodePath) -> Vec<&'static str> {
    let ns = g.node_states();
    (0..ns.input_slot_count(path))
        .map(|i| ns.input_slot(path, i).expect("slot").label)
        .collect()
}

fn output_labels_at(g: &Graph, path: &NodePath) -> Vec<&'static str> {
    let ns = g.node_states();
    (0..ns.output_slot_count(path))
        .map(|i| ns.output_slot(path, i).expect("slot").label)
        .collect()
}

/// An external Number feeding a SubGraph input, read by an Add inside.
fn routed() -> (Graph, NodePath, NodePath, NodeId) {
    let mut g = new_graph();
    let sg = add_subgraph(&mut g, "SG");
    g.add_subgraph_input(&sg, "x", DataType::Number).expect("port");
    let sg_path = NodePath::root().child(sg);
    let (in_proxy, _) = g.subgraph_proxy_ids(&sg).expect("proxies");
    let add = create_node_at(&mut g, &sg_path, "Add");
    let add_path = sg_path.child(add);
    g.connect_nodes_at(&sg_path.child(in_proxy), 0, &add_path, 0).expect("proxy -> add");
    let num = create_node(&mut g, "Number");
    (g, NodePath::root().child(num), add_path, sg)
}

#[test]
fn an_external_value_reaches_a_consumer_through_the_input_proxy() {
    let (mut g, num_path, add_path, sg) = routed();
    let num = num_path.leaf().expect("leaf");
    g.connect_nodes(&num, 0, &sg, 0).expect("number -> subgraph");
    let sid: OutputSlotId = g.node_states().output_slot(&num_path, 0).expect("slot").id;
    let mut cache: AssocMap<OutputSlotId, f64> = AssocMap::new();
    cache.insert(sid, 7.5);

    let inputs = input_values(g.node_states(), &cache, &add_path);
    assert_eq!(inputs.len(), 4);
    assert_eq!(inputs[0], vec![7.5]);
    assert!(inputs[1].is_empty() && inputs[2].is_empty() && inputs[3].is_empty());
    assert_eq!(output_values(g.node_states(), &cache, &num_path), vec![Some(7.5)]);
    assert_eq!(resolve_value(g.node_states(), &cache, &num_path, 0, sid), Some(7.5));
}

#[test]
fn with_nothing_upstream_the_proxy_default_is_delivered() {
    let (mut g, _num_path, add_path, sg) = routed();
    g.set_subgraph_input_default(&sg, 0, 3.0).expect("default");
    let cache: AssocMap<OutputSlotId, f64> = AssocMap::new();
    let inputs = input_values(g.node_states(), &cache, &add_path);
    assert_eq!(inputs[0], vec![3.0]);
}

#[test]
fn a_slot_default_stands_in_when_no_edge_delivers() {
    let mut g = new_graph();
    let add = create_node(&mut g, "Add");
    let add_path = NodePath::root().child(add);
    g.update_input_slot_default_data_at(&add_path, 1, 2.0).expect("default");
    let num = create_node(&mut g, "Number");
    g.connect_nodes(&num, 0, &add, 0).expect("connect");
    let cache: AssocMap<OutputSlotId, f64> = AssocMap::new();
    let inputs = input_values(g.node_states(), &cache, &add_path);
    assert!(inputs[0].is_empty(), "an uncached source delivers nothing");
    assert_eq!(inputs[1], vec![2.0]);
    assert_eq!(output_values(g.node_states(), &cache, &NodePath::root().child(num)), vec![None]);
}

#[test]
fn multi_connection_slots_keep_connection_order() {
    let mut g = new_graph();
    let sink = create_node(&mut g, "AddList");
    let mut cache: AssocMap<OutputSlotId, f64> = AssocMap::new();
    for v in [3.0, 1.0, 2.0] {
        let n = create_node(&mut g, "Number");
        g.connect_nodes(&n, 0, &sink, 0).expect("connect");
        let sid = g.node_states().output_slot(&NodePath::root().child(n), 0).expect("slot").id;
        cache.insert(sid, v);
    }
    let inputs = input_values(g.node_states(), &cache, &NodePath::root().child(sink));
    assert_eq!(inputs[0], vec![3.0, 1.0, 2.0]);
}

#[test]
fn a_pass_reports_outputs_edges_and_sink_inputs() {
    let mut g = new_graph();
    let num = create_node(&mut g, "Number");
    let sink = create_node(&mut g, "Vec3InputTestNode");
    let vec3 = create_node(&mut g, "Vector3");
    let add = create_node(&mut g, "Add");
    let e1 = g.connect_nodes(&num, 0, &add, 0).expect("number -> add");
    g.connect_nodes(&vec3, 0, &sink, 0).expect("vector -> sink");
    let num_path = NodePath::root().child(num);
    let sid = g.node_states().output_slot(&num_path, 0).expect("slot").id;
    let vsid = g.node_states().output_slot(&NodePath::root().child(vec3), 0).expect("slot").id;
    let mut cache: AssocMap<OutputSlotId, f64> = AssocMap::new();
    cache.insert(sid, 4.0);
    cache.insert(vsid, 9.0);
    let plan = g.build_execution_plan().expect("plan");
    let executed = vec![num_path.clone(), NodePath::root().child(sink)];
    let r = g.collect_outputs(&cache, &plan, &executed);

    assert_eq!(r.node_outputs.len(), 2);
    assert!(r.node_outputs[0].0.same_path(&num_path));
    assert_eq!(r.node_outputs[0].1, vec![Some(4.0)]);
    assert_eq!(r.node_outputs[1].1, vec![Some(9.0)], "a sink reports what its input shows");
    assert_eq!(r.edge_values.len(), 1, "only edges leaving executed nodes");
    let (id, ev) = &r.edge_values[0];
    assert_eq!(*id, e1);
    assert_eq!((ev.from_node, ev.from_slot, ev.to_node, ev.to_slot), (num, 0, add, 0));
    assert_eq!(ev.data, Some(4.0));
    assert!(r.errors.is_empty());
    assert!(!r.is_empty());
}

#[test]
fn an_empty_result_is_empty() {
    let r: cognet::ExecutionResult<f64> = cognet::ExecutionResult::empty();
    assert!(r.is_empty());
    assert!(r.edge_values.is_empty() && r.errors.is_empty());
}

#[test]
fn an_unchanged_source_lets_the_frontier_skip_a_node() {
    let mut g = new_graph();
    let num = create_node(&mut g, "Number");
    let add = create_node(&mut g, "Add");
    g.connect_nodes(&num, 0, &add, 0).expect("connect");
    let add_path = NodePath::root().child(add);
    let num_path = NodePath::root().child(num);
    let frontier = cognet::ChangeFrontier::new(Vec::new());
    assert!(!frontier.must_execute(&add_path, g.node_states()));
    assert!(frontier.must_execute(&num_path, g.node_states()), "no incoming edge: it runs");
    let mut moved = cognet::ChangeFrontier::new(Vec::new());
    moved.mark_changed(num_path.clone());
    assert!(moved.must_execute(&add_path, g.node_states()));
    let level = vec![num_path.clone(), add_path.clone()];
    assert_eq!(frontier.level_to_run(&level, g.node_states()).len(), 1);
    assert_eq!(moved.level_to_run(&level, g.node_states()).len(), 2);
}
