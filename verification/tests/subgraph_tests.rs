#![allow(dead_code)]
use cognet::{
    AddListNode, AddNode, DataType, NodeData, NodeGraph, NodeId, NodeMeta, NodePath, NumberNode,
    PayloadType, SlotDef,
};

/// A node payload: a number, or an opaque value of some domain.
#[derive(Debug, Clone, PartialEq)]
enum Payload {
    Number(f64),
    Vector3(f64, f64, f64),
    Other(&'static str),
}

impl PayloadType for Payload {
    fn payload_type(&self) -> DataType {
        match self {
            Payload::Number(_) => DataType::Number,
            Payload::Vector3(..) => DataType::Vector3,
            Payload::Other(domain) => DataType::Domain(domain),
        }
    }
}

type Graph = NodeGraph<Payload, f64>;

fn new_graph() -> Graph {
    NodeGraph::new()
}

/// The slot layout registered under a node type name.
fn layout(name: &str) -> (Vec<SlotDef>, Vec<SlotDef>) {
    match name {
        "Number" => (NumberNode::inputs(), NumberNode::outputs()),
        "Add" => (AddNode::inputs(), AddNode::outputs()),
        "AddList" => (AddListNode::inputs(), AddListNode::outputs()),
        "Vector3" => (Vec::new(), vec![SlotDef::new("Vector", DataType::Vector3, None)]),
        "Vec3InputTestNode" => (vec![SlotDef::new("In", DataType::Vector3, Some(1))], Vec::new()),
        _ => (Vec::new(), Vec::new()),
    }
}

/// Places a node of type `name` under a fresh id below `parent`.
fn create_node_at(g: &mut Graph, parent: &NodePath, name: &'static str) -> NodeId {
    let id = NodeId::new();
    let (inputs, outputs) = layout(name);
    g.add_node_at(&parent.child(id), name, None, None, &inputs, &outputs)
        .expect("add node");
    id
}

fn create_node(g: &mut Graph, name: &'static str) -> NodeId {
    create_node_at(g, &NodePath::root(), name)
}

fn add_subgraph(g: &mut Graph, label: &str) -> NodeId {
    g.add_subgraph_at(&NodePath::root(), label.to_string())
        .expect("add_subgraph_at")
}

fn input_labels_at(g: &Graph, path: &NodePath) -> Vec<&'static str> {
    let ns = g.node_states();
    (0..ns.input_slot_count(path))
        .map(|i| ns.input_slot(path, i).expect("slot").label)
        .collect()
}

fn output_labels_at(g: &Graph, path: &NodePath) -> Vec<&'static str> {
    let ns = g.node_states();
    (0..ns.output_slot_count(path))
        .map(|i| ns.output_slot(path, i).expect("slot").label)
        .collect()
}

#[test]
fn test_subgraph_creation_via_add_subgraph_at() {
    let mut graph = new_graph();
    let sg_id = add_subgraph(&mut graph, "Test");

    let node = graph.node_states().get(&NodePath::root().child(sg_id)).expect("Node not found");
    assert_eq!(node.type_label, "SubGraph");

    let ns = graph.node_states();
    assert_eq!(ns.input_slot_count(&NodePath::root().child(sg_id)), 0);
    assert_eq!(ns.output_slot_count(&NodePath::root().child(sg_id)), 0);
}

#[test]
fn test_subgraph_proxy_nodes_registered_in_parent_states() {
    let mut graph = new_graph();
    let sg_id = add_subgraph(&mut graph, "Test");

    let sg_path = NodePath::root().child(sg_id);
    let (input_proxy, output_proxy) = graph.subgraph_proxy_ids_at_path(&sg_path).expect("proxy ids");

    assert!(graph.node_states().get(&sg_path.child(input_proxy)).is_some());
    assert!(graph.node_states().get(&sg_path.child(output_proxy)).is_some());
}

#[test]
fn test_is_subgraph_node() {
    let mut graph = new_graph();
    let num = create_node(&mut graph, "Number");
    let sg = add_subgraph(&mut graph, "Test");

    assert!(!graph.is_subgraph_node(&num));
    assert!(graph.is_subgraph_node(&sg));
}

#[test]
fn test_subgraph_label() {
    let mut graph = new_graph();
    let sg = add_subgraph(&mut graph, "TestSG");

    assert_eq!(graph.subgraph_label(&sg), Some("TestSG".to_string()));
    assert!(graph.set_subgraph_label(&sg, "Custom"));
    assert_eq!(graph.subgraph_label(&sg), Some("Custom".to_string()));
}

#[test]
fn test_subgraph_proxy_ids() {
    let mut graph = new_graph();
    let sg = add_subgraph(&mut graph, "Test");

    let (input_id, output_id) = graph.subgraph_proxy_ids(&sg).expect("proxy ids");
    let children = graph.subgraph_node_ids(&sg).expect("internal ids");
    assert!(children.contains(&input_id));
    assert!(children.contains(&output_id));
}

#[test]
fn test_add_remove_subgraph_ports() {
    let mut graph = new_graph();
    let sg = add_subgraph(&mut graph, "Test");

    graph.add_subgraph_input(&sg, "In1", DataType::Number).expect("add input");
    graph.add_subgraph_output(&sg, "Out1", DataType::Number).expect("add output");

    {
        let ns = graph.node_states();
        assert_eq!(ns.input_slot_count(&NodePath::root().child(sg)), 1);
        assert_eq!(ns.output_slot_count(&NodePath::root().child(sg)), 1);
    }

    graph.remove_subgraph_input(&sg, 0).expect("remove input");
    graph.remove_subgraph_output(&sg, 0).expect("remove output");

    let ns = graph.node_states();
    assert_eq!(ns.input_slot_count(&NodePath::root().child(sg)), 0);
    assert_eq!(ns.output_slot_count(&NodePath::root().child(sg)), 0);
}

#[test]
fn test_rename_subgraph_input_preserves_edges() {
    let mut graph = new_graph();
    let sg = add_subgraph(&mut graph, "Test");

    graph.add_subgraph_input(&sg, "height", DataType::Number).expect("add height");
    graph.add_subgraph_input(&sg, "thickness", DataType::Number).expect("add thickness");

    let outer_h = create_node(&mut graph, "Number");
    let edge_into_height = graph.connect_nodes(&outer_h, 0, &sg, 0).expect("connect into height");

    let idx = graph.rename_subgraph_input(&sg, "height", "wall_height").expect("rename ok");
    assert_eq!(idx, 0);

    {
        let ns = graph.node_states();
        assert_eq!(ns.input_slot_count(&NodePath::root().child(sg)), 2);
        let s0 = ns.input_slot(&NodePath::root().child(sg), 0).unwrap();
        let s1 = ns.input_slot(&NodePath::root().child(sg), 1).unwrap();
        assert_eq!(s0.label, "wall_height");
        assert_eq!(s1.label, "thickness");
        assert!(ns.get_edge(&edge_into_height).is_some());
    }

    let err = graph
        .rename_subgraph_input(&sg, "thickness", "wall_height")
        .expect_err("collision");
    assert!(err.contains("uniqueness"), "unexpected error: {err}");
}

#[test]
fn test_rename_subgraph_output_renames_proxy() {
    let mut graph = new_graph();
    let sg = add_subgraph(&mut graph, "Test");

    graph.add_subgraph_output(&sg, "old_name", DataType::Number).expect("add output");

    let idx = graph.rename_subgraph_output(&sg, "old_name", "new_name").expect("rename ok");
    assert_eq!(idx, 0);

    let slot = graph.node_states().output_slot(&NodePath::root().child(sg), 0).unwrap();
    assert_eq!(slot.label, "new_name");
}

#[test]
fn set_subgraph_input_default_mirrors_to_input_proxy() {
    let mut graph = new_graph();
    let sg = add_subgraph(&mut graph, "Test");
    graph.add_subgraph_input(&sg, "x", DataType::Number).expect("add input");

    graph.set_subgraph_input_default(&sg, 0, 7.0).expect("set default");

    let (input_proxy_id, _) = graph.subgraph_proxy_ids(&sg).expect("proxy ids");
    let sg_path = NodePath::root().child(sg);
    let proxy_path = sg_path.child(input_proxy_id);

    let ns = graph.node_states();
    let ext = ns.input_slot(&sg_path, 0).expect("ext slot");
    let prx = ns.input_slot(&proxy_path, 0).expect("proxy slot");
    assert!(ext.default_value.is_some(), "external default written");
    assert!(prx.default_value.is_some(), "proxy default mirrored");
    assert_eq!(ext.default_value, Some(7.0));
    assert_eq!(prx.default_value, Some(7.0));
}

#[test]
fn clear_subgraph_input_default_clears_input_proxy_too() {
    let mut graph = new_graph();
    let sg = add_subgraph(&mut graph, "Test");
    graph.add_subgraph_input(&sg, "x", DataType::Number).expect("add input");
    graph.set_subgraph_input_default(&sg, 0, 7.0).expect("set default");

    graph.clear_subgraph_input_default(&sg, 0).expect("clear default");

    let (input_proxy_id, _) = graph.subgraph_proxy_ids(&sg).expect("proxy ids");
    let sg_path = NodePath::root().child(sg);
    let proxy_path = sg_path.child(input_proxy_id);
    let ns = graph.node_states();
    assert!(ns.input_slot(&sg_path, 0).unwrap().default_value.is_none());
    assert!(ns.input_slot(&proxy_path, 0).unwrap().default_value.is_none());
}

#[test]
fn set_subgraph_input_default_leaves_no_partial_state_on_proxy_slot_missing() {
    let mut graph = new_graph();
    let sg = add_subgraph(&mut graph, "Test");
    graph.add_subgraph_input(&sg, "x", DataType::Number).expect("add input");

    let sg_path = NodePath::root().child(sg);
    assert!(graph.node_states().input_slot(&sg_path, 0).unwrap().default_value.is_none());

    let (input_proxy_id, _) = graph.subgraph_proxy_ids(&sg).expect("proxy ids");
    let proxy_path = sg_path.child(input_proxy_id);
    graph.node_states_mut().remove_input_slot(&proxy_path, 0);

    let err = graph
        .set_subgraph_input_default(&sg, 0, 7.0)
        .expect_err("missing proxy slot must Err");
    assert!(err.contains("InputProxy"), "error mentions InputProxy: {err}");

    assert!(
        graph.node_states().input_slot(&sg_path, 0).unwrap().default_value.is_none(),
        "external slot must not be mutated when mirror fails",
    );
}

#[test]
fn set_subgraph_input_default_marks_both_paths_changed() {
    let mut graph = new_graph();
    let sg = add_subgraph(&mut graph, "Test");
    graph.add_subgraph_input(&sg, "x", DataType::Number).expect("add input");

    let _ = graph.node_states_mut().drain_changed_nodes();

    graph.set_subgraph_input_default(&sg, 0, 11.0).expect("set default");

    let (input_proxy_id, _) = graph.subgraph_proxy_ids(&sg).expect("proxy ids");
    let sg_path = NodePath::root().child(sg);
    let proxy_path = sg_path.child(input_proxy_id);

    let dirty = graph.node_states_mut().drain_changed_nodes();
    assert!(dirty.contains(&sg_path), "sg_path must be dirty");
    assert!(dirty.contains(&proxy_path), "proxy_path must be dirty (internals re-execute trigger)");
}

#[test]
fn insert_subgraph_input_at_restores_middle_position() {
    let mut graph = new_graph();
    let sg = add_subgraph(&mut graph, "Test");
    for label in ["a", "b", "c"] {
        graph.add_subgraph_input(&sg, label, DataType::Number).expect("add input");
    }

    graph.remove_subgraph_input(&sg, 1).expect("remove middle");
    graph.insert_subgraph_input_at(&sg, 1, "b", DataType::Number).expect("insert at 1");

    let sg_path = NodePath::root().child(sg);
    let (input_proxy_id, _) = graph.subgraph_proxy_ids(&sg).expect("proxy ids");
    let in_path = sg_path.child(input_proxy_id);
    assert_eq!(input_labels_at(&graph, &sg_path), vec!["a", "b", "c"]);
    assert_eq!(input_labels_at(&graph, &in_path), vec!["a", "b", "c"]);
    assert_eq!(output_labels_at(&graph, &in_path), vec!["a", "b", "c"]);
}

#[test]
fn insert_subgraph_input_at_shifts_higher_slot_edges_up() {
    let mut graph = new_graph();
    let sg = add_subgraph(&mut graph, "Test");
    for label in ["a", "b"] {
        graph.add_subgraph_input(&sg, label, DataType::Number).expect("add input");
    }
    let feeder = create_node(&mut graph, "Number");
    let edge = graph.connect_nodes(&feeder, 0, &sg, 1).expect("wire b");

    graph.remove_subgraph_input(&sg, 0).expect("remove a");
    graph.insert_subgraph_input_at(&sg, 0, "a", DataType::Number).expect("insert at 0");

    let e = graph.node_states().get_edge(&edge).expect("edge survives");
    assert_eq!(e.to_input_slot_index, 1, "edge into 'b' must follow its slot back up to index 1");
}

#[test]
fn insert_subgraph_input_at_validates_index() {
    let mut graph = new_graph();
    let sg = add_subgraph(&mut graph, "Test");
    graph.add_subgraph_input(&sg, "a", DataType::Number).expect("add input");

    let err = graph
        .insert_subgraph_input_at(&sg, 2, "x", DataType::Number)
        .expect_err("index 2 > count 1 must Err");
    assert!(err.contains("out of range"), "unexpected error: {err}");

    graph.insert_subgraph_input_at(&sg, 1, "b", DataType::Number).expect("index == count appends");
    let sg_path = NodePath::root().child(sg);
    assert_eq!(input_labels_at(&graph, &sg_path), vec!["a", "b"]);
}

#[test]
fn insert_subgraph_output_at_restores_middle_position() {
    let mut graph = new_graph();
    let sg = add_subgraph(&mut graph, "Test");
    for label in ["a", "b", "c"] {
        graph.add_subgraph_output(&sg, label, DataType::Number).expect("add output");
    }

    graph.remove_subgraph_output(&sg, 1).expect("remove middle");
    graph.insert_subgraph_output_at(&sg, 1, "b", DataType::Number).expect("insert at 1");

    let sg_path = NodePath::root().child(sg);
    let (_, output_proxy_id) = graph.subgraph_proxy_ids(&sg).expect("proxy ids");
    let out_path = sg_path.child(output_proxy_id);
    assert_eq!(output_labels_at(&graph, &sg_path), vec!["a", "b", "c"]);
    assert_eq!(input_labels_at(&graph, &out_path), vec!["a", "b", "c"]);
    assert_eq!(output_labels_at(&graph, &out_path), vec!["a", "b", "c"]);
}

#[test]
fn insert_subgraph_output_at_shifts_higher_slot_edges_up() {
    let mut graph = new_graph();
    let sg = add_subgraph(&mut graph, "Test");
    for label in ["a", "b"] {
        graph.add_subgraph_output(&sg, label, DataType::Number).expect("add output");
    }
    let sink = create_node(&mut graph, "Add");
    let edge = graph.connect_nodes(&sg, 1, &sink, 0).expect("wire b out");

    graph.remove_subgraph_output(&sg, 0).expect("remove a");
    graph.insert_subgraph_output_at(&sg, 0, "a", DataType::Number).expect("insert at 0");

    let e = graph.node_states().get_edge(&edge).expect("edge survives");
    assert_eq!(e.from_output_slot_index, 1, "edge from 'b' must follow its slot back up to index 1");
}

fn locked_of(graph: &Graph, path: &NodePath) -> Vec<String> {
    match graph.node_states().get(path).and_then(|s| s.data.as_ref()) {
        Some(NodeData::Interface(d)) => d.locked.clone(),
        _ => Vec::new(),
    }
}

#[test]
fn insert_subgraph_port_locked_at_stamps_lock() {
    let mut graph = new_graph();
    let sg = add_subgraph(&mut graph, "Test");
    graph.add_subgraph_input(&sg, "a", DataType::Number).expect("add input");
    graph.add_subgraph_output(&sg, "x", DataType::Number).expect("add output");

    graph
        .insert_subgraph_input_locked_at(&sg, 0, "mand_in", DataType::Number)
        .expect("locked input insert");
    graph
        .insert_subgraph_output_locked_at(&sg, 0, "mand_out", DataType::Number)
        .expect("locked output insert");

    let sg_path = NodePath::root().child(sg);
    assert_eq!(input_labels_at(&graph, &sg_path), vec!["mand_in", "a"]);
    assert_eq!(output_labels_at(&graph, &sg_path), vec!["mand_out", "x"]);

    let (in_proxy, out_proxy) = graph.subgraph_proxy_ids(&sg).expect("proxy ids");
    assert!(locked_of(&graph, &sg_path.child(in_proxy)).contains(&"mand_in".to_string()), "input lock stamped");
    assert!(locked_of(&graph, &sg_path.child(out_proxy)).contains(&"mand_out".to_string()), "output lock stamped");
}

#[test]
fn subgraph_edges_preserve_per_slot_connection_order() {
    let mut graph = new_graph();
    let sg = add_subgraph(&mut graph, "Order");
    let sg_path = NodePath::root().child(sg);

    let sink = create_node_at(&mut graph, &sg_path, "AddList");
    let sink_path = sg_path.child(sink);

    let mut suppliers = Vec::new();
    for _ in 0..8 {
        let n = create_node_at(&mut graph, &sg_path, "Number");
        graph.connect_nodes_at(&sg_path.child(n), 0, &sink_path, 0).expect("connect supplier");
        suppliers.push(n);
    }

    let into_sink: Vec<NodeId> = graph
        .subgraph_edges(&sg)
        .into_iter()
        .filter(|e| e.to_node.leaf() == Some(sink))
        .map(|e| e.from_node.leaf().expect("leaf"))
        .collect();
    assert_eq!(into_sink, suppliers);
}

#[test]
fn add_subgraph_port_locked_records_the_lock_on_the_proxy() {
    let mut graph = new_graph();
    let sg = add_subgraph(&mut graph, "Test");
    graph.add_subgraph_input_locked(&sg, "in", DataType::Number).expect("locked input");
    graph.add_subgraph_output_locked(&sg, "out", DataType::Number).expect("locked output");
    let sg_path = NodePath::root().child(sg);
    let (in_proxy, out_proxy) = graph.subgraph_proxy_ids(&sg).expect("proxy ids");
    assert_eq!(locked_of(&graph, &sg_path.child(in_proxy)), vec!["in".to_string()]);
    assert_eq!(locked_of(&graph, &sg_path.child(out_proxy)), vec!["out".to_string()]);
}

#[test]
fn subgraph_port_operations_refuse_a_plain_node() {
    let mut graph = new_graph();
    let num = create_node(&mut graph, "Number");
    let err = graph.add_subgraph_input(&num, "x", DataType::Number).expect_err("not a SubGraph");
    assert_eq!(err, format!("Node NodeId(Ulid({})) is not a SubGraphNode", num.id()));
    let err = graph.set_subgraph_input_default(&num, 0, 1.0).expect_err("not a SubGraph");
    assert_eq!(
        err,
        format!("set_subgraph_input_default: SubGraph NodeId(Ulid({})) has no input proxy (schema corruption)", num.id())
    );
    let sg = add_subgraph(&mut graph, "S");
    let err = graph.clear_subgraph_input_default(&sg, 3).expect_err("no slot 3");
    assert_eq!(
        err,
        format!("clear_subgraph_input_default: external slot 3 missing on SubGraph NodeId(Ulid({}))", sg.id())
    );
}

#[test]
fn remove_subgraph_port_by_label_reports_its_index() {
    let mut graph = new_graph();
    let sg = add_subgraph(&mut graph, "Test");
    for label in ["a", "b"] {
        graph.add_subgraph_input(&sg, label, DataType::Number).expect("add input");
    }
    assert_eq!(graph.remove_subgraph_input_by_label(&sg, "b"), Ok(1));
    let err = graph.remove_subgraph_input_by_label(&sg, "zzz").expect_err("unknown label");
    assert_eq!(err, "Input label \"zzz\" not found");
}

#[test]
fn add_input_multi_adds_a_multi_connection_proxy_port_only() {
    let mut g = new_graph();
    let sg = add_subgraph(&mut g, "SG");
    let sg_path = NodePath::root().child(sg);
    let (in_proxy, out_proxy) = g.subgraph_proxy_ids(&sg).expect("proxies");
    let node = cognet::SubGraphNode::with_proxies(in_proxy, out_proxy, "SG".to_string());
    node.add_input_multi(&sg_path, &mut g, "Baseline", DataType::Number, None, false)
        .expect("add port");
    let in_path = sg_path.child(in_proxy);
    assert_eq!(input_labels_at(&g, &in_path), vec!["Baseline"]);
    assert_eq!(output_labels_at(&g, &in_path), vec!["Baseline"]);
    let slot = g.node_states().input_slot(&in_path, 0).expect("slot");
    assert_eq!(slot.max_connections, None);
    assert!(!slot.inspector_visible);
    assert_eq!(g.input_slot_count_at(&sg_path), 0, "the SubGraph's own slots are untouched");
    for _ in 0..3 {
        let n = create_node(&mut g, "Number");
        g.connect_nodes_at(&NodePath::root().child(n), 0, &in_path, 0).expect("many edges");
    }
    assert_eq!(g.edges_for_input_slot_at(&in_path, 0).len(), 3);
}

#[test]
fn place_subgraph_uses_the_given_proxy_ids() {
    let mut g = new_graph();
    let (sg, input, output) = (NodeId::new(), NodeId::new(), NodeId::new());
    let placed = g.place_subgraph(&NodePath::root(), sg, input, output, "Inner".to_string());
    assert_eq!(placed, Ok(sg));
    let sg_path = NodePath::root().child(sg);
    assert_eq!(g.subgraph_proxy_ids_at_path(&sg_path), Some((input, output)));
    let children = g.children_of_path(&sg_path);
    assert_eq!(children.len(), 2);
    assert!(children.contains(&input));
    assert!(children.contains(&output));
    assert!(g.is_subgraph_node(&sg));
}

#[test]
fn place_subgraph_refuses_one_id_for_both_proxies() {
    let mut g = new_graph();
    let (sg, proxy) = (NodeId::new(), NodeId::new());
    let placed = g.place_subgraph(&NodePath::root(), sg, proxy, proxy, "Inner".to_string());
    assert!(placed.is_err());
    assert!(!g.has_node(&sg));
}

#[test]
fn place_subgraph_refuses_a_taken_path_and_leaves_the_graph_alone() {
    let mut g = new_graph();
    let sg = NodeId::new();
    let first = g.place_subgraph(&NodePath::root(), sg, NodeId::new(), NodeId::new(), "A".to_string());
    assert_eq!(first, Ok(sg));
    let before = g.children_of_path(&NodePath::root().child(sg));
    let second = g.place_subgraph(&NodePath::root(), sg, NodeId::new(), NodeId::new(), "B".to_string());
    assert!(second.is_err());
    assert_eq!(g.children_of_path(&NodePath::root().child(sg)), before);
}
