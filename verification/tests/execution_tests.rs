//! Passes driven end to end through the library: plan, cutoff, record,
//! restore and report, with a small test executor whose node behaviours
//! are written here.
#![allow(dead_code)]
use cognet::{
    input_values, output_values, AddNode, AssocMap, ChangeFrontier, DataType, ExecutionResult,
    NodeData, NodeGraph, NodeId, NodeMeta, NodePath, OutputSlotId, PayloadType, SlotDef,
};

#[derive(Debug, Clone, PartialEq)]
enum Payload {
    Number(f64),
}

impl PayloadType for Payload {
    fn payload_type(&self) -> DataType {
        DataType::Number
    }
}

type Graph = NodeGraph<Payload, f64>;

fn one_in_one_out() -> (Vec<SlotDef>, Vec<SlotDef>) {
    (vec![SlotDef::new("In", DataType::Number, Some(1))], vec![SlotDef::new("Out", DataType::Number, None)])
}

fn layout(name: &str) -> (Vec<SlotDef>, Vec<SlotDef>) {
    match name {
        "Number" | "Flaky" => (Vec::new(), vec![SlotDef::new("Value", DataType::Number, None)]),
        "Add" => (AddNode::inputs(), AddNode::outputs()),
        "Sink" => (vec![SlotDef::new("In", DataType::Number, Some(1))], Vec::new()),
        _ => one_in_one_out(),
    }
}

/// The graph, the output cache, and what ran.
struct Exec {
    g: Graph,
    cache: AssocMap<OutputSlotId, f64>,
    runs: Vec<&'static str>,
    flaky_failures_left: usize,
}

impl Exec {
    fn new() -> Self {
        Exec { g: NodeGraph::new(), cache: AssocMap::new(), runs: Vec::new(), flaky_failures_left: 0 }
    }

    fn node_at(&mut self, parent: &NodePath, name: &'static str) -> NodeId {
        let id = NodeId::new();
        let (inputs, outputs) = layout(name);
        self.g.add_node_at(&parent.child(id), name, None, None, &inputs, &outputs).expect("add node");
        id
    }

    fn node(&mut self, name: &'static str) -> NodeId {
        self.node_at(&NodePath::root(), name)
    }

    fn set_number(&mut self, id: NodeId, v: f64) {
        self.g.update_node_data(&id, NodeData::Value(Payload::Number(v))).expect("set number");
    }

    fn connect(&mut self, from: NodeId, out: usize, to: NodeId, inp: usize) {
        self.g.connect_nodes(&from, out, &to, inp).expect("connect");
    }

    fn runs_of(&self, name: &str) -> usize {
        self.runs.iter().filter(|n| **n == name).count()
    }

    fn cached_at(&self, p: &NodePath) -> Option<f64> {
        let sid = self.g.node_states().output_slot(p, 0)?.id;
        self.cache.get(&sid).copied()
    }

    fn cached(&self, id: NodeId) -> Option<f64> {
        self.cached_at(&path(id))
    }

    /// Runs one node; answers its result and whether its outputs count
    /// as changed. `Quantize` compares its outputs; every other node
    /// counts as changed.
    fn run_node(&mut self, p: &NodePath) -> (Result<(), String>, bool) {
        let ns = self.g.node_states();
        let Some(state) = ns.get(p) else { return (Ok(()), true) };
        let label = state.type_label;
        self.runs.push(label);
        let inputs = input_values(ns, &self.cache, p);
        let first = |i: usize| inputs.get(i).and_then(|v| v.first()).copied().unwrap_or(0.0);
        let before = output_values(ns, &self.cache, p);
        let value = match label {
            "Number" | "Flaky" => {
                if label == "Flaky" && self.flaky_failures_left > 0 {
                    self.flaky_failures_left -= 1;
                    return (Err("flaky: not yet".to_string()), true);
                }
                match &state.data {
                    Some(NodeData::Value(Payload::Number(v))) => Some(*v),
                    _ => return (Err("Failed to get node data".to_string()), true),
                }
            }
            "Quantize" | "PlainDouble" => Some(first(0).floor()),
            "Passthrough" => inputs.first().and_then(|v| v.first()).copied(),
            "Add" => Some(first(0) + first(1)),
            "AlwaysFails" => return (Err("deliberate failure".to_string()), true),
            _ => None,
        };
        let sid = ns.output_slot(p, 0).map(|s| s.id);
        if let (Some(v), Some(sid)) = (value, sid) {
            self.cache.insert(sid, v);
        }
        let after = output_values(self.g.node_states(), &self.cache, p);
        (Ok(()), label != "Quantize" || before != after)
    }

    fn execute(&mut self) -> ExecutionResult<f64> {
        let plan = self.g.build_execution_plan().expect("plan");
        if plan.is_empty() {
            let mut r = ExecutionResult::empty();
            r.removed_nodes = plan.removed_nodes;
            return r;
        }
        self.g.begin_execution();
        let mut frontier = ChangeFrontier::new(plan.seed_nodes.clone());
        let mut failed: Vec<NodePath> = Vec::new();
        let mut executed: Vec<NodePath> = Vec::new();
        for level in &plan.levels {
            for p in frontier.level_to_run(level, self.g.node_states()) {
                let (result, changed) = self.run_node(&p);
                self.g.record_run(&mut frontier, p, result, changed, &mut failed, &mut executed);
            }
        }
        self.g.restore_dirty_for_failed(&failed);
        self.g.collect_outputs(&self.cache, &plan, &executed)
    }
}

fn path(id: NodeId) -> NodePath {
    NodePath::root().child(id)
}

fn ran_at(r: &ExecutionResult<f64>, p: &NodePath) -> bool {
    r.node_outputs.iter().any(|(q, _)| q.same_path(p))
}

fn ran(r: &ExecutionResult<f64>, id: NodeId) -> bool {
    ran_at(r, &path(id))
}

fn output_for(r: &ExecutionResult<f64>, id: NodeId) -> f64 {
    r.node_outputs
        .iter()
        .find(|(q, _)| q.same_path(&path(id)))
        .and_then(|(_, o)| o.first().copied().flatten())
        .expect("output")
}

fn has_error(r: &ExecutionResult<f64>, id: NodeId) -> bool {
    r.errors.iter().any(|(q, _)| q.same_path(&path(id)))
}

/// `Number → Quantize → Add(B) → Add(C)`.
fn build_chain() -> (Exec, NodeId, NodeId, NodeId, NodeId) {
    let mut x = Exec::new();
    let num = x.node("Number");
    let quant = x.node("Quantize");
    let b = x.node("Add");
    let c = x.node("Add");
    x.set_number(num, 1.2);
    x.connect(num, 0, quant, 0);
    x.connect(quant, 0, b, 0);
    x.connect(b, 0, c, 0);
    (x, num, quant, b, c)
}

fn build_add_graph(a: f64, b: f64) -> (Exec, NodeId, NodeId, NodeId) {
    let mut x = Exec::new();
    let a_id = x.node("Number");
    let b_id = x.node("Number");
    let add_id = x.node("Add");
    x.set_number(a_id, a);
    x.set_number(b_id, b);
    x.connect(a_id, 0, add_id, 0);
    x.connect(b_id, 0, add_id, 1);
    (x, a_id, b_id, add_id)
}

#[test]
fn execute_sync_produces_expected_value() {
    let (mut x, _, _, add_id) = build_add_graph(7.0, 8.0);
    let result = x.execute();
    assert_eq!(output_for(&result, add_id), 15.0);
}

#[test]
fn sequential_matches_parallel_on_independent_levels() {
    let mut x = Exec::new();
    let n: Vec<NodeId> = (0..4).map(|_| x.node("Number")).collect();
    for (i, id) in n.iter().enumerate() {
        x.set_number(*id, (i + 1) as f64);
    }
    let add_left = x.node("Add");
    let add_right = x.node("Add");
    let add_top = x.node("Add");
    x.connect(n[0], 0, add_left, 0);
    x.connect(n[1], 0, add_left, 1);
    x.connect(n[2], 0, add_right, 0);
    x.connect(n[3], 0, add_right, 1);
    x.connect(add_left, 0, add_top, 0);
    x.connect(add_right, 0, add_top, 1);
    let first = x.execute();
    let first_top = output_for(&first, add_top);
    x.g.mark_all_nodes_dirty();
    let second = x.execute();
    assert_eq!(first_top, 10.0);
    assert_eq!(output_for(&second, add_top), first_top);
}

#[test]
fn plain_removal_is_reported_in_removed_nodes() {
    let (mut x, a_id, _, _) = build_add_graph(1.0, 2.0);
    x.execute();
    x.g.remove_node(a_id).expect("remove");
    let result = x.execute();
    assert!(result.removed_nodes.contains(&a_id));
}

#[test]
fn removed_then_recreated_same_id_is_not_reported_removed() {
    let (mut x, a_id, _, add_id) = build_add_graph(1.0, 2.0);
    x.execute();
    x.g.remove_node(a_id).expect("remove");
    let (inputs, outputs) = layout("Number");
    x.g.add_node_at(&path(a_id), "Number", None, None, &inputs, &outputs).expect("re-create");
    x.set_number(a_id, 5.0);
    x.connect(a_id, 0, add_id, 0);
    let result = x.execute();
    assert!(!result.removed_nodes.contains(&a_id));
    assert!(ran(&result, a_id));
    assert_eq!(output_for(&result, add_id), 7.0);
}

#[test]
fn sync_failure_preserves_dirty_for_retry() {
    let mut x = Exec::new();
    x.flaky_failures_left = 1;
    let id = x.node("Flaky");
    x.set_number(id, 7.0);
    let r1 = x.execute();
    assert!(has_error(&r1, id));
    let r2 = x.execute();
    assert!(!has_error(&r2, id));
    assert_eq!(output_for(&r2, id), 7.0);
}

#[test]
fn equal_output_skips_the_downstream_cone_and_keeps_its_cached_values() {
    let (mut x, num, quant, b, c) = build_chain();
    let first = x.execute();
    assert!(ran(&first, b) && ran(&first, c), "first pass runs everything");
    assert_eq!(x.cached(c), Some(1.0));

    let quant_before = x.runs_of("Quantize");
    x.set_number(num, 1.7);
    let second = x.execute();
    assert!(ran(&second, num), "the directly-dirty node always runs");
    assert_eq!(x.runs_of("Quantize") - quant_before, 1);
    assert!(ran(&second, quant));
    assert!(!ran(&second, b) && !ran(&second, c), "an equivalent result stops propagation");
    assert_eq!(x.cached(b), Some(1.0), "a skipped node keeps its cached outputs");
    assert_eq!(x.cached(c), Some(1.0));
}

#[test]
fn skipped_nodes_are_left_clean_not_dirty() {
    let (mut x, num, _, _, _) = build_chain();
    x.execute();
    x.set_number(num, 1.7);
    x.execute();
    let third = x.execute();
    assert!(third.node_outputs.is_empty(), "skipping leaves no dirty state behind");
}

#[test]
fn differing_output_propagates_to_the_whole_cone() {
    let (mut x, num, quant, b, c) = build_chain();
    x.execute();
    x.set_number(num, 3.4);
    let second = x.execute();
    assert!(ran(&second, num) && ran(&second, quant) && ran(&second, b) && ran(&second, c));
    assert_eq!(x.cached(c), Some(3.0));
}

#[test]
fn a_default_node_never_prunes_even_with_identical_outputs() {
    let mut x = Exec::new();
    let num = x.node("Number");
    let plain = x.node("PlainDouble");
    let b = x.node("Add");
    let c = x.node("Add");
    x.set_number(num, 1.2);
    x.connect(num, 0, plain, 0);
    x.connect(plain, 0, b, 0);
    x.connect(b, 0, c, 0);
    x.execute();
    let before = x.runs_of("PlainDouble");
    x.set_number(num, 1.7);
    let second = x.execute();
    assert_eq!(x.runs_of("PlainDouble") - before, 1);
    assert!(ran(&second, plain) && ran(&second, b) && ran(&second, c));
}

fn diamond(x: &mut Exec) -> (NodeId, NodeId, NodeId, NodeId, NodeId) {
    let left_num = x.node("Number");
    let right_num = x.node("Number");
    let left = x.node("Quantize");
    let right = x.node("Quantize");
    let join = x.node("Add");
    x.set_number(left_num, 1.2);
    x.set_number(right_num, 10.2);
    x.connect(left_num, 0, left, 0);
    x.connect(right_num, 0, right, 0);
    x.connect(left, 0, join, 0);
    x.connect(right, 0, join, 1);
    (left_num, right_num, left, right, join)
}

#[test]
fn a_join_with_one_changed_branch_executes() {
    let mut x = Exec::new();
    let (left_num, right_num, left, _right, join) = diamond(&mut x);
    let tail = x.node("Add");
    x.connect(join, 0, tail, 0);
    x.execute();
    assert_eq!(x.cached(join), Some(11.0));
    x.set_number(left_num, 1.7);
    x.set_number(right_num, 12.3);
    let second = x.execute();
    assert!(ran(&second, join), "a join with any changed upstream must execute");
    assert!(ran(&second, left));
    assert!(ran(&second, tail));
    assert_eq!(x.cached(join), Some(13.0), "the unchanged branch's cached value is read");
}

#[test]
fn a_join_with_no_changed_branch_is_skipped() {
    let mut x = Exec::new();
    let (left_num, right_num, _left, _right, join) = diamond(&mut x);
    x.execute();
    x.set_number(left_num, 1.7);
    x.set_number(right_num, 10.9);
    let second = x.execute();
    assert!(!ran(&second, join));
    assert_eq!(x.cached(join), Some(11.0));
}

#[test]
fn a_failed_node_still_retries_while_skipped_nodes_do_not() {
    let mut x = Exec::new();
    let num = x.node("Number");
    let quant = x.node("Quantize");
    let failing = x.node("AlwaysFails");
    let skipped = x.node("Add");
    x.set_number(num, 1.2);
    x.connect(num, 0, quant, 0);
    x.connect(quant, 0, failing, 0);
    x.connect(quant, 0, skipped, 0);
    let first = x.execute();
    assert!(has_error(&first, failing));
    assert!(ran(&first, skipped));
    let before = x.runs_of("AlwaysFails");
    x.set_number(num, 1.7);
    let second = x.execute();
    assert_eq!(x.runs_of("AlwaysFails") - before, 1, "the failed node retries");
    assert!(!ran(&second, skipped), "the sibling with no changed upstream is skipped");
    assert!(has_error(&second, failing), "the retry's failure is reported again");
}

#[test]
fn a_failing_node_propagates_even_though_its_outputs_did_not_move() {
    let mut x = Exec::new();
    let num = x.node("Number");
    let failing = x.node("AlwaysFails");
    let downstream = x.node("Add");
    x.set_number(num, 1.0);
    x.connect(num, 0, failing, 0);
    x.connect(failing, 0, downstream, 0);
    x.execute();
    x.set_number(num, 2.0);
    let second = x.execute();
    assert!(ran(&second, downstream), "a failed node fails open");
}

#[test]
fn cutoff_across_a_subgraph_interface_boundary() {
    let mut x = Exec::new();
    let sg = x.g.add_subgraph_at(&NodePath::root(), "SG".to_string()).expect("subgraph");
    x.g.add_subgraph_input(&sg, "In", DataType::Number).expect("input");
    x.g.add_subgraph_output(&sg, "Out", DataType::Number).expect("output");
    let (in_proxy, out_proxy) = x.g.subgraph_proxy_ids(&sg).expect("proxies");
    let sg_path = path(sg);
    let in_path = sg_path.child(in_proxy);
    let out_path = sg_path.child(out_proxy);
    let num = x.node("Number");
    let quant = x.node_at(&sg_path, "Quantize");
    let quant_path = sg_path.child(quant);
    let sink = x.node("Add");
    x.set_number(num, 1.2);
    x.g.connect_nodes_at(&path(num), 0, &in_path, 0).expect("num -> in");
    x.g.connect_nodes_at(&in_path, 0, &quant_path, 0).expect("in -> quant");
    x.g.connect_nodes_at(&quant_path, 0, &out_path, 0).expect("quant -> out");
    x.g.connect_nodes_at(&out_path, 0, &path(sink), 0).expect("out -> sink");

    x.execute();
    assert_eq!(x.cached(sink), Some(1.0), "the value crosses both proxies");

    x.set_number(num, 1.7);
    let second = x.execute();
    assert!(!ran_at(&second, &out_path), "the output proxy has no changed upstream");
    assert!(!ran(&second, sink));
    assert_eq!(x.cached(sink), Some(1.0));

    x.set_number(num, 4.5);
    let third = x.execute();
    assert!(ran_at(&third, &out_path));
    assert!(ran(&third, sink));
    assert_eq!(x.cached(sink), Some(4.0));
}

#[test]
fn execute_delivers_external_number_through_subgraph_input() {
    let mut x = Exec::new();
    let sg = x.g.add_subgraph_at(&NodePath::root(), "SG".to_string()).expect("subgraph");
    x.g.add_subgraph_input(&sg, "x", DataType::Number).expect("input");
    let sg_path = path(sg);
    let (in_proxy, _) = x.g.subgraph_proxy_ids(&sg).expect("proxies");
    let consumer = x.node_at(&sg_path, "Passthrough");
    let consumer_path = sg_path.child(consumer);
    x.g.connect_nodes_at(&sg_path.child(in_proxy), 0, &consumer_path, 0).expect("proxy -> consumer");
    let num = x.node("Number");
    x.set_number(num, 7.5);
    x.g.connect_nodes(&num, 0, &sg, 0).expect("number -> subgraph");
    let r = x.execute();
    let outs = &r.node_outputs.iter().find(|(q, _)| q.same_path(&consumer_path)).expect("consumer ran").1;
    assert_eq!(outs, &vec![Some(7.5)], "the consumer sees the external number");
}

#[test]
fn internal_consumer_sees_external_value_with_interface_node_skipped() {
    let mut x = Exec::new();
    let sg = x.g.add_subgraph_at(&NodePath::root(), "SG".to_string()).expect("subgraph");
    x.g.add_subgraph_input(&sg, "x", DataType::Number).expect("input");
    let sg_path = path(sg);
    let (in_proxy, _) = x.g.subgraph_proxy_ids(&sg).expect("proxies");
    let proxy_path = sg_path.child(in_proxy);
    let consumer = x.node_at(&sg_path, "Passthrough");
    let consumer_path = sg_path.child(consumer);
    x.g.connect_nodes_at(&proxy_path, 0, &consumer_path, 0).expect("proxy -> consumer");
    let num = x.node("Number");
    x.set_number(num, 11.0);
    x.g.connect_nodes(&num, 0, &sg, 0).expect("number -> subgraph");
    let r = x.execute();
    let proxy_outputs = r.node_outputs.iter().find(|(q, _)| q.same_path(&proxy_path)).map(|(_, o)| o.clone());
    assert!(
        proxy_outputs.map_or(true, |o| o.iter().all(Option::is_none)),
        "the interface node produces no values of its own"
    );
    let outs = &r.node_outputs.iter().find(|(q, _)| q.same_path(&consumer_path)).expect("consumer ran").1;
    assert_eq!(outs, &vec![Some(11.0)]);
}

#[test]
fn number_output_sink_sees_value_from_subgraph_output_via_follow_through() {
    let mut x = Exec::new();
    let sg = x.g.add_subgraph_at(&NodePath::root(), "SG".to_string()).expect("subgraph");
    x.g.add_subgraph_output(&sg, "y", DataType::Number).expect("output");
    let sg_path = path(sg);
    let (_, out_proxy) = x.g.subgraph_proxy_ids(&sg).expect("proxies");
    let out_path = sg_path.child(out_proxy);
    let inner = x.node_at(&sg_path, "Number");
    x.g.update_node_data_at(&sg_path.child(inner), NodeData::Value(Payload::Number(42.0))).expect("data");
    x.g.connect_nodes_at(&sg_path.child(inner), 0, &out_path, 0).expect("inner -> out proxy");
    let sink = x.node("Sink");
    x.g.connect_nodes(&sg, 0, &sink, 0).expect("subgraph -> sink");
    let r = x.execute();
    assert_eq!(output_for(&r, sink), 42.0, "a sink reports the value routed through the output proxy");
}
