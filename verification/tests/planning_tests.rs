#![allow(dead_code)]
use cognet::execution::ChangeFrontier;
use cognet::planning::{downstream_of, topological_levels};
use cognet::{
    AddListNode, AddNode, DataType, GraphExecutionError, NodeData, NodeGraph, NodeId, NodeMeta,
    NodePath, NumberNode, PayloadType, SlotDef,
};

/// A node payload: a number, or an opaque value of some domain.
#[derive(Debug, Clone, PartialEq)]
enum Payload {
    Number(f64),
    Vector3(f64, f64, f64),
    Other(&'static str),
}

impl PayloadType for Payload {
    fn payload_type(&self) -> DataType {
        match self {
            Payload::Number(_) => DataType::Number,
            Payload::Vector3(..) => DataType::Vector3,
            Payload::Other(domain) => DataType::Domain(domain),
        }
    }
}

type Graph = NodeGraph<Payload, f64>;

fn new_graph() -> Graph {
    NodeGraph::new()
}

/// The slot layout registered under a node type name.
fn layout(name: &str) -> (Vec<SlotDef>, Vec<SlotDef>) {
    match name {
        "Number" => (NumberNode::inputs(), NumberNode::outputs()),
        "Add" => (AddNode::inputs(), AddNode::outputs()),
        "AddList" => (AddListNode::inputs(), AddListNode::outputs()),
        "Vector3" => (Vec::new(), vec![SlotDef::new("Vector", DataType::Vector3, None)]),
        "Vec3InputTestNode" => (vec![SlotDef::new("In", DataType::Vector3, Some(1))], Vec::new()),
        _ => (Vec::new(), Vec::new()),
    }
}

/// Places a node of type `name` under a fresh id below `parent`.
fn create_node_at(g: &mut Graph, parent: &NodePath, name: &'static str) -> NodeId {
    let id = NodeId::new();
    let (inputs, outputs) = layout(name);
    g.add_node_at(&parent.child(id), name, None, None, &inputs, &outputs)
        .expect("add node");
    id
}

fn create_node(g: &mut Graph, name: &'static str) -> NodeId {
    create_node_at(g, &NodePath::root(), name)
}

fn add_subgraph(g: &mut Graph, label: &str) -> NodeId {
    g.add_subgraph_at(&NodePath::root(), label.to_string())
        .expect("add_subgraph_at")
}

fn input_labels_at(g: &Graph, path: &NodePath) -> Vec<&'static str> {
    let ns = g.node_states();
    (0..ns.input_slot_count(path))
        .map(|i| ns.input_slot(path, i).expect("slot").label)
        .collect()
}

fn output_labels_at(g: &Graph, path: &NodePath) -> Vec<&'static str> {
    let ns = g.node_states();
    (0..ns.output_slot_count(path))
        .map(|i| ns.output_slot(path, i).expect("slot").label)
        .collect()
}

fn root(id: NodeId) -> NodePath {
    NodePath::root().child(id)
}

/// n1 -> add1 -> add2, n2 -> add2.
fn diamond() -> (Graph, NodeId, NodeId, NodeId, NodeId) {
    let mut g = new_graph();
    let n1 = create_node(&mut g, "Number");
    let n2 = create_node(&mut g, "Number");
    let add1 = create_node(&mut g, "Add");
    let add2 = create_node(&mut g, "Add");
    g.connect_nodes(&n1, 0, &add1, 0).expect("n1 -> add1");
    g.connect_nodes(&add1, 0, &add2, 0).expect("add1 -> add2");
    g.connect_nodes(&n2, 0, &add2, 1).expect("n2 -> add2");
    (g, n1, n2, add1, add2)
}

#[test]
fn downstream_of_collects_everything_fed_by_the_seeds() {
    let (g, n1, n2, add1, add2) = diamond();
    let down = downstream_of(g.node_states(), &vec![root(n1)]);
    assert_eq!(down.len(), 3);
    assert!(down.contains(&root(n1)) && down.contains(&root(add1)) && down.contains(&root(add2)));
    assert!(!down.contains(&root(n2)));
}

#[test]
fn levels_put_each_node_after_its_feeders() {
    let (g, n1, n2, add1, add2) = diamond();
    let targets = vec![root(add2), root(add1), root(n2), root(n1)];
    let levels = topological_levels(g.node_states(), &targets).expect("acyclic");
    assert_eq!(levels.len(), 3);
    assert_eq!(levels[0].len(), 2);
    assert!(levels[0].contains(&root(n1)) && levels[0].contains(&root(n2)));
    assert_eq!(levels[1], vec![root(add1)]);
    assert_eq!(levels[2], vec![root(add2)]);

    let sorted = g.topological_sort(&targets).expect("acyclic");
    assert_eq!(sorted.len(), 3);
    assert!(sorted[0].contains(&root(n1)) && sorted[0].contains(&root(n2)));
    assert_eq!(sorted[1], vec![root(add1)]);
    assert_eq!(sorted[2], vec![root(add2)]);
}

#[test]
fn a_cycle_the_changed_nodes_never_reach_does_not_block_planning() {
    let mut g = new_graph();
    let a = create_node(&mut g, "Add");
    let b = create_node(&mut g, "Add");
    g.connect_nodes(&a, 0, &b, 0).expect("a -> b");
    g.connect_nodes(&b, 0, &a, 0).expect("b -> a");
    let n = create_node(&mut g, "Number");
    g.begin_execution();
    g.update_node_data(&n, NodeData::Value(Payload::Number(1.0))).expect("data");
    let plan = g.build_execution_plan().expect("the cycle lies outside the dirty set");
    assert_eq!(plan.planned_node_paths, vec![root(n)]);
}

#[test]
fn a_cycle_is_refused() {
    let mut g = new_graph();
    let a = create_node(&mut g, "Add");
    let b = create_node(&mut g, "Add");
    g.connect_nodes(&a, 0, &b, 0).expect("a -> b");
    g.connect_nodes(&b, 0, &a, 0).expect("b -> a");
    let err = g.topological_sort(&vec![root(a), root(b)]).expect_err("cycle");
    assert_eq!(err, "Graph contains a cycle.");
    match g.build_execution_plan() {
        Err(GraphExecutionError::PlanningFailed(m)) => assert_eq!(m, "Graph contains a cycle."),
        other => panic!("expected a planning failure, got {:?}", other.map(|p| p.planned_node_paths.len())),
    }
}

#[test]
fn a_plan_seeds_from_the_changed_set_and_runs_its_cone() {
    let (mut g, n1, n2, add1, add2) = diamond();
    g.begin_execution();
    let empty = g.build_execution_plan().expect("plan");
    assert!(empty.is_empty());

    g.update_node_data(&n1, NodeData::Value(Payload::Number(3.0))).expect("write");
    let plan = g.build_execution_plan().expect("plan");
    assert_eq!(plan.seed_nodes, vec![root(n1)]);
    assert_eq!(plan.planned_node_paths, vec![root(n1), root(add1), root(add2)]);
    assert!(!plan.dirty_nodes.contains(&root(n2)));
}

#[test]
fn removed_nodes_are_reported_once_unless_recreated() {
    let mut g = new_graph();
    let a = create_node(&mut g, "Number");
    let b = create_node(&mut g, "Number");
    g.remove_node(a).expect("remove a");
    g.remove_node(b).expect("remove b");
    // b comes back under the same id.
    g.add_node_at(&root(b), "Number", None, None, &NumberNode::inputs(), &NumberNode::outputs())
        .expect("recreate b");
    let plan = g.build_execution_plan().expect("plan");
    assert_eq!(plan.removed_nodes, vec![a]);
    let again = g.build_execution_plan().expect("plan");
    assert!(again.removed_nodes.is_empty());
}

#[test]
fn a_failed_node_is_planned_again() {
    let (mut g, n1, _n2, add1, add2) = diamond();
    let plan = g.build_execution_plan().expect("plan");
    g.begin_execution();
    let mut frontier = ChangeFrontier::new(plan.seed_nodes.clone());
    let mut failed = Vec::new();
    let mut executed = Vec::new();
    g.record_run(&mut frontier, root(add1), Err("boom".to_string()), false, &mut failed, &mut executed);
    assert_eq!(failed, vec![root(add1)]);
    let errors = g.execution_errors();
    assert_eq!(errors.len(), 1);
    assert_eq!(errors[0].0, root(add1));
    assert_eq!(errors[0].1.message, "Execution error: boom");
    g.restore_dirty_for_failed(&failed);
    let next = g.build_execution_plan().expect("plan");
    assert!(next.dirty_nodes.contains(&root(add1)));
    assert!(next.dirty_nodes.contains(&root(add2)));
    assert!(!next.dirty_nodes.contains(&root(n1)));
    g.begin_execution();
    assert!(g.execution_errors().is_empty(), "a new pass forgets the last pass's execution errors");
}

#[test]
fn unchanged_inputs_let_a_node_be_skipped() {
    let (g, n1, n2, add1, add2) = diamond();
    let ns = g.node_states();
    let mut frontier = ChangeFrontier::new(vec![root(n1)]);
    // Nothing has produced new outputs yet: add1 is fed only by n1.
    assert!(!frontier.must_execute(&root(add1), ns));
    assert!(frontier.must_execute(&root(n1), ns), "a seed always runs");
    assert!(frontier.must_execute(&root(n2), ns), "a node with no incoming edge always runs");
    frontier.mark_changed(root(n1));
    assert!(frontier.must_execute(&root(add1), ns));
    assert!(!frontier.must_execute(&root(add2), ns), "add2's feeders did not change");
    let level = vec![root(add1), root(add2)];
    assert_eq!(frontier.level_to_run(&level, ns), vec![root(add1)]);
}
