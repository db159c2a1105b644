//! Execution bookkeeping: the plan built from the changed set, the
//! value-based cutoff that skips nodes whose inputs did not move, and the
//! record kept while the levels run.

use vstd::prelude::*;
use crate::assoc::{key_seq, seq_drop_set, vec_has_key};
use crate::data_type::str_eq;
use crate::error::{ErrorTarget, GraphError, KindView};
use crate::graph::{interface_name, NodeGraph};
use crate::ids::{EdgeId, NodeId};
use crate::meta::NodeExecutionKind;
use crate::node_path::NodePath;
use crate::node_state::NodeStates;
use crate::planning::{downstream_of, feeds, is_downstream_closure, is_layering, level_views, self_fed, topological_levels};
use crate::resolve::pairs_view;

verus! {

broadcast use {vstd::seq_lib::group_seq_properties, vstd::set_lib::group_set_properties};

/// Why an execution could not run.
#[derive(Debug)]
pub enum GraphExecutionError {
    /// The plan holds nodes that need the asynchronous kernel.
    RequiresAsyncExecution { node_ids: Vec<NodeId> },
    /// The plan could not be built.
    PlanningFailed(String),
    /// Execution failed in a way no retry can recover from.
    ExecutionFailed(String),
}

/// The error of one node's run.
#[derive(Debug, Clone)]
pub struct NodeError {
    pub message: String,
}

/// Progress of a pass.
#[derive(Debug, Clone)]
pub enum ExecutionEvent {
    /// The node started running.
    Started(NodePath),
    /// The node ran to completion.
    Completed(NodePath),
    /// The node failed, with its message.
    Failed(NodePath, String),
}

/// The value on one edge after a pass.
#[derive(Debug, Clone)]
pub struct EdgeValue<V> {
    pub from_node: NodeId,
    pub from_slot: usize,
    pub to_node: NodeId,
    pub to_slot: usize,
    pub data: Option<V>,
}

/// What a pass produced: the outputs of the nodes that ran (a node without
/// outputs reports what its inputs show), the values on the edges leaving
/// them, the nodes' execution errors and the ids removed since the last
/// pass.
#[derive(Debug)]
pub struct ExecutionResult<V> {
    pub node_outputs: Vec<(NodePath, Vec<Option<V>>)>,
    pub edge_values: Vec<(EdgeId, EdgeValue<V>)>,
    pub errors: Vec<(NodePath, NodeError)>,
    pub removed_nodes: Vec<NodeId>,
}

impl<V> ExecutionResult<V> {
    /// A result with nothing in it.
    pub fn empty() -> (r: Self)
        ensures
            r.node_outputs@.len() == 0,
            r.edge_values@.len() == 0,
            r.errors@.len() == 0,
            r.removed_nodes@.len() == 0,
    {
        ExecutionResult { node_outputs: Vec::new(), edge_values: Vec::new(), errors: Vec::new(), removed_nodes: Vec::new() }
    }

    /// Whether no node was reported and nothing was removed.
    pub fn is_empty(&self) -> (r: bool)
        ensures
            r == (self.node_outputs@.len() == 0 && self.removed_nodes@.len() == 0),
    {
        self.node_outputs.len() == 0 && self.removed_nodes.len() == 0
    }
}

/// The nodes to run for one execution pass.
pub struct ExecutionPlan {
    /// The nodes marked changed: they run whatever their sources did.
    pub seed_nodes: Vec<NodePath>,
    /// The seeds and everything downstream of them.
    pub dirty_nodes: Vec<NodePath>,
    /// The dirty nodes in levels; a level depends only on earlier ones.
    pub levels: Vec<Vec<NodePath>>,
    /// The levels one after the other.
    pub planned_node_paths: Vec<NodePath>,
    /// Removed nodes with no live node under their id.
    pub removed_nodes: Vec<NodeId>,
}

/// The levels one after the other.
pub open spec fn flatten_levels(levels: Seq<Seq<Seq<u128>>>) -> Seq<Seq<u128>>
    decreases levels.len(),
{
    if levels.len() == 0 {
        Seq::empty()
    } else {
        flatten_levels(levels.drop_last()) + levels.last()
    }
}

/// The local ids of the non-root nodes of `ns`.
pub open spec fn live_ids<D, V>(ns: &NodeStates<D, V>) -> Set<u128> {
    Set::new(|x: u128| exists|p: Seq<u128>| #[trigger] ns.node_map().dom().contains(p) && p.len() > 0 && p.last() == x)
}

impl ExecutionPlan {
    /// Whether the plan runs nothing.
    pub fn is_empty(&self) -> (r: bool)
        ensures
            r == (self.planned_node_paths@.len() == 0),
    {
        self.planned_node_paths.len() == 0
    }
}

/// Concatenates the levels.
fn flatten(levels: &Vec<Vec<NodePath>>) -> (r: Vec<NodePath>)
    ensures
        key_seq(r@) == flatten_levels(level_views(levels@)),
{
    let mut r: Vec<NodePath> = Vec::new();
    let mut i: usize = 0;
    while i < levels.len()
        invariant
            i <= levels@.len(),
            key_seq(r@) == flatten_levels(level_views(levels@.subrange(0, i as int))),
        decreases levels@.len() - i,
    {
        let ghost before = key_seq(r@);
        let l = &levels[i];
        let mut k: usize = 0;
        while k < l.len()
            invariant
                k <= l@.len(),
                key_seq(r@) == before + key_seq(l@.subrange(0, k as int)),
            decreases l@.len() - k,
        {
            let ghost rb = key_seq(r@);
            r.push(l[k].clone());
            assert(key_seq(r@) =~= rb.push(l@[k as int]@));
            assert(key_seq(l@.subrange(0, k + 1)) =~= key_seq(l@.subrange(0, k as int)).push(l@[k as int]@));
            k = k + 1;
        }
        proof {
            assert(l@.subrange(0, l@.len() as int) =~= l@);
            let a = level_views(levels@.subrange(0, i + 1));
            assert(a.drop_last() =~= level_views(levels@.subrange(0, i as int)));
            assert(a.last() == key_seq(levels@[i as int]@));
        }
        i = i + 1;
    }
    assert(levels@.subrange(0, levels@.len() as int) =~= levels@);
    r
}

impl<D, V> NodeGraph<D, V> {
    /// Plans a pass from the changed set, which is left in place: the seeds
    /// are the changed nodes, the dirty set is everything downstream of
    /// them, and the levels layer the dirty set. The removal record is
    /// taken and narrowed to ids with no live node. Fails when the dirty
    /// set has a cycle.
    pub fn build_execution_plan(&mut self) -> (r: Result<ExecutionPlan, GraphExecutionError>)
        requires
            old(self).wf(),
        ensures
            final(self).wf(),
            final(self).st() == old(self).st(),
            final(self).subgraph_map() == old(self).subgraph_map(),
            final(self).error_map() == old(self).error_map(),
            final(self).removed_ids() == Seq::<u128>::empty(),
            match r {
                Ok(plan) => {
                    let st = old(self).st();
                    &&& key_seq(plan.removed_nodes@) == seq_drop_set(old(self).removed_ids(), live_ids(&st))
                    &&& key_seq(plan.seed_nodes@).to_set() == st.changed()
                    &&& key_seq(plan.seed_nodes@).no_duplicates()
                    &&& is_downstream_closure(&st, st.changed(), key_seq(plan.dirty_nodes@).to_set())
                    &&& key_seq(plan.dirty_nodes@).no_duplicates()
                    &&& is_layering(&st, key_seq(plan.dirty_nodes@).to_set(), level_views(plan.levels@))
                    &&& key_seq(plan.planned_node_paths@) == flatten_levels(level_views(plan.levels@))
                },
                Err(GraphExecutionError::PlanningFailed(m)) => {
                    let st = old(self).st();
                    &&& m@ == "Graph contains a cycle."@
                    &&& exists|c: Set<Seq<u128>>, d: Set<Seq<u128>>|
                        #![trigger self_fed(&st, c), is_downstream_closure(&st, st.changed(), d)]
                        self_fed(&st, c) && is_downstream_closure(&st, st.changed(), d) && c.subset_of(d)
                            && c.len() > 0 && c.finite()
                },
                Err(_) => false,
            },
    {
        let removed = self.take_removed();
        let ns = self.node_states();
        let changed = ns.peek_changed_nodes();
        let live = ns.node_ids();
        let mut kept: Vec<NodeId> = Vec::new();
        let mut i: usize = 0;
        while i < removed.len()
            invariant
                ns.wf(),
                i <= removed@.len(),
                forall|x: u128| key_seq(live@).contains(x) <==> live_ids(ns).contains(x),
                key_seq(kept@) == seq_drop_set(key_seq(removed@.subrange(0, i as int)), live_ids(ns)),
            decreases removed@.len() - i,
        {
            let ghost before = key_seq(kept@);
            proof {
                let t = key_seq(removed@.subrange(0, i + 1));
                assert(t.drop_last() =~= key_seq(removed@.subrange(0, i as int)));
                assert(t.last() == removed@[i as int]@);
            }
            if !vec_has_key(&live, &removed[i]) {
                kept.push(removed[i]);
                assert(key_seq(kept@) =~= before.push(removed@[i as int]@));
            }
            i = i + 1;
        }
        assert(removed@.subrange(0, removed@.len() as int) =~= removed@);
        if changed.len() == 0 {
            proof {
                assert(key_seq(changed@).len() == 0);
                assert(ns.changed() =~= Set::<Seq<u128>>::empty());
                let empty_levels: Seq<Vec<NodePath>> = Seq::empty();
                assert(level_views(empty_levels) =~= Seq::<Seq<Seq<u128>>>::empty());
                assert(key_seq(Seq::<NodePath>::empty()).to_set() =~= Set::<Seq<u128>>::empty());
                assert(is_downstream_closure(ns, ns.changed(), Set::<Seq<u128>>::empty()));
            }
            return Ok(
                ExecutionPlan {
                    seed_nodes: Vec::new(),
                    dirty_nodes: Vec::new(),
                    levels: Vec::new(),
                    planned_node_paths: Vec::new(),
                    removed_nodes: kept,
                },
            );
        }
        let dirty = downstream_of(ns, &changed);
        let levels = match topological_levels(ns, &dirty) {
            Ok(l) => l,
            Err(m) => {
                proof {
                    let d = key_seq(dirty@).to_set();
                    let c = choose|c: Set<Seq<u128>>| #[trigger] self_fed(ns, c) && c.subset_of(d) && c.len() > 0 && c.finite();
                    assert(self_fed(ns, c) && is_downstream_closure(ns, ns.changed(), d));
                }
                return Err(GraphExecutionError::PlanningFailed(m));
            },
        };
        let planned = flatten(&levels);
        Ok(ExecutionPlan { seed_nodes: changed, dirty_nodes: dirty, levels, planned_node_paths: planned, removed_nodes: kept })
    }

    /// Splits `targets` into levels such that each target sits one level
    /// after the last of the targets feeding it: the first level holds the
    /// targets fed by none, and an edge between two targets always goes to
    /// a later level. Fails when the targets hold a cycle.
    pub fn topological_sort(&self, targets: &Vec<NodePath>) -> (r: Result<Vec<Vec<NodePath>>, String>)
        requires
            self.wf(),
            key_seq(targets@).no_duplicates(),
        ensures
            match r {
                Ok(levels) => is_layering(&self.st(), key_seq(targets@).to_set(), level_views(levels@)),
                Err(m) => {
                    &&& m@ == "Graph contains a cycle."@
                    &&& exists|c: Set<Seq<u128>>| #[trigger] self_fed(&self.st(), c) && c.subset_of(key_seq(targets@).to_set())
                        && c.len() > 0 && c.finite()
                },
            },
    {
        topological_levels(self.node_states(), targets)
    }

    /// Commits a plan: clears the changed set and forgets the execution
    /// errors of the previous pass.
    pub fn begin_execution(&mut self)
        requires
            old(self).wf(),
        ensures
            final(self).wf(),
            final(self).st().changed() == Set::<Seq<u128>>::empty(),
            final(self).st().node_map() == old(self).st().node_map(),
            final(self).st().edge_map() == old(self).st().edge_map(),
            final(self).st().same_slots(&old(self).st()),
            final(self).st().same_edge_indexes(&old(self).st()),
            final(self).st().same_children(&old(self).st()),
            final(self).st().generation() == old(self).st().generation(),
            forall|t: ErrorTarget| #[trigger] final(self).error_map().dom().contains(t) <==> (
                old(self).error_map().dom().contains(t) && !(old(self).error_map()[t].kind@ is Execution)),
            forall|t: ErrorTarget| #[trigger] final(self).error_map().dom().contains(t) ==> final(self).error_map()[t]
                == old(self).error_map()[t],
            final(self).subgraph_map() == old(self).subgraph_map(),
            final(self).removed_ids() == old(self).removed_ids(),
    {
        self.drain_changed();
        self.clear_execution_errors();
    }

    /// Records the outcome of one node run: a changed output joins the
    /// frontier, a failure records an execution error on the node and
    /// joins `failed`, and the path joins `executed`.
    pub fn record_run(
        &mut self,
        frontier: &mut ChangeFrontier,
        path: NodePath,
        result: Result<(), String>,
        outputs_changed: bool,
        failed: &mut Vec<NodePath>,
        executed: &mut Vec<NodePath>,
    )
        requires
            old(self).wf(),
        ensures
            final(self).wf(),
            final(self).st() == old(self).st(),
            final(self).subgraph_map() == old(self).subgraph_map(),
            final(self).removed_ids() == old(self).removed_ids(),
            final(frontier).seed_set() == old(frontier).seed_set(),
            final(frontier).changed_set() == if outputs_changed {
                old(frontier).changed_set().insert(path@)
            } else {
                old(frontier).changed_set()
            },
            key_seq(final(executed)@) == key_seq(old(executed)@).push(path@),
            match result {
                Ok(_) => key_seq(final(failed)@) == key_seq(old(failed)@) && final(self).error_map() == old(self).error_map(),
                Err(m) => {
                    let target = if path@.len() > 0 { ErrorTarget::Node(NodeId(path@.last())) } else { ErrorTarget::Graph };
                    &&& key_seq(final(failed)@) == key_seq(old(failed)@).push(path@)
                    &&& final(self).error_map().dom() == old(self).error_map().dom().insert(target)
                    &&& final(self).error_map()[target]@ == (target, KindView::Execution(m@))
                    &&& forall|t: ErrorTarget| t != target && #[trigger] final(self).error_map().dom().contains(t)
                        ==> final(self).error_map()[t] == old(self).error_map()[t]
                },
            },
    {
        if outputs_changed {
            frontier.mark_changed(path.clone());
        }
        match result {
            Err(msg) => {
                let e = GraphError::execution_at_path(&path, msg);
                self.add_error(e);
                let ghost before = failed@;
                failed.push(path.clone());
                assert(key_seq(failed@) =~= key_seq(before).push(path@));
            },
            Ok(_) => {},
        }
        let ghost before = executed@;
        executed.push(path);
        assert(key_seq(executed@) =~= key_seq(before).push(path@));
    }

    /// Marks the failed nodes changed again so the next pass retries them.
    pub fn restore_dirty_for_failed(&mut self, failed: &Vec<NodePath>)
        requires
            old(self).wf(),
        ensures
            final(self).wf(),
            final(self).st().changed() == old(self).st().changed() + key_seq(failed@).to_set(),
            final(self).st().node_map() == old(self).st().node_map(),
            final(self).st().edge_map() == old(self).st().edge_map(),
            final(self).st().same_slots(&old(self).st()),
            final(self).st().same_edge_indexes(&old(self).st()),
            final(self).st().same_children(&old(self).st()),
            final(self).st().generation() == old(self).st().generation(),
            final(self).subgraph_map() == old(self).subgraph_map(),
            final(self).error_map() == old(self).error_map(),
            final(self).removed_ids() == old(self).removed_ids(),
    {
        self.restore_changed(failed);
    }

    /// `r` lists the execution errors recorded on nodes, each with the
    /// root-level path of its node and the message of the error.
    pub open spec fn lists_execution_errors(&self, r: Seq<(NodePath, NodeError)>) -> bool {
        &&& forall|i: int| 0 <= i < r.len() ==> {
            let (p, m) = #[trigger] r[i];
            &&& p@.len() == 1
            &&& self.error_map().dom().contains(ErrorTarget::Node(NodeId(p@[0])))
            &&& self.error_map()[ErrorTarget::Node(NodeId(p@[0]))].kind@ matches KindView::Execution(t)
                && m.message@ == "Execution error: "@ + t
        }
        &&& forall|x: u128| #[trigger] self.error_map().dom().contains(ErrorTarget::Node(NodeId(x)))
            && self.error_map()[ErrorTarget::Node(NodeId(x))].kind@ is Execution ==> exists|i: int|
            0 <= i < r.len() && (#[trigger] r[i]).0@ == seq![x]
    }

    /// The execution errors recorded on nodes, each with the root-level
    /// path of its node.
    pub fn execution_errors(&self) -> (r: Vec<(NodePath, NodeError)>)
        requires
            self.wf(),
        ensures
            self.lists_execution_errors(r@),
    {
        let errs = self.errors();
        let keys = errs.keys();
        let mut r: Vec<(NodePath, NodeError)> = Vec::new();
        proof {
            errs.lemma_entries();
            assert forall|j: int| 0 <= j < keys@.len() implies errs@.dom().contains(#[trigger] keys@[j]) by {
                assert(keys@[j]@ == errs.key_at(j));
            }
        }
        let mut i: usize = 0;
        while i < keys.len()
            invariant
                errs@ == self.error_map(),
                errs.wf(),
                keys@.len() == errs.spec_len(),
                forall|j: int| 0 <= j < keys@.len() ==> (#[trigger] keys@[j])@ == errs.key_at(j),
                forall|j: int| 0 <= j < keys@.len() ==> errs@.dom().contains(#[trigger] keys@[j]),
                i <= keys@.len(),
                forall|j: int| 0 <= j < r@.len() ==> {
                    let (p, m) = #[trigger] r@[j];
                    &&& p@.len() == 1
                    &&& self.error_map().dom().contains(ErrorTarget::Node(NodeId(p@[0])))
                    &&& self.error_map()[ErrorTarget::Node(NodeId(p@[0]))].kind@ matches KindView::Execution(t)
                        && m.message@ == "Execution error: "@ + t
                },
                forall|j: int| 0 <= j < i && (#[trigger] keys@[j]) is Node
                    && self.error_map()[keys@[j]].kind@ is Execution ==> exists|k: int|
                    0 <= k < r@.len() && (#[trigger] r@[k]).0@ == seq![(keys@[j]->Node_0)@],
            decreases keys@.len() - i,
        {
            let k = keys[i];
            match k {
                ErrorTarget::Node(n) => {
                    match errs.get(&k) {
                        Some(e) => {
                            if e.is_execution_error() {
                                let p = NodePath::root().child(n);
                                let ghost before = r@;
                                r.push((p, NodeError { message: e.message() }));
                                proof {
                                    assert(p@ =~= seq![n@]);
                                    assert(r@[before.len() as int].0@ == seq![n@]);
                                    assert forall|j: int| 0 <= j < i + 1 && (#[trigger] keys@[j]) is Node
                                        && self.error_map()[keys@[j]].kind@ is Execution implies exists|kk: int|
                                        0 <= kk < r@.len() && (#[trigger] r@[kk]).0@ == seq![(keys@[j]->Node_0)@] by {
                                        if j < i {
                                            let kk = choose|kk: int| 0 <= kk < before.len() && (#[trigger] before[kk]).0@ == seq![(keys@[j]->Node_0)@];
                                            assert(r@[kk] == before[kk]);
                                        } else {
                                            assert(r@[before.len() as int].0@ == seq![(keys@[j]->Node_0)@]);
                                        }
                                    }
                                }
                            }
                        },
                        None => {},
                    }
                },
                _ => {},
            }
            i = i + 1;
        }
        proof {
            assert forall|x: u128| #[trigger] self.error_map().dom().contains(ErrorTarget::Node(NodeId(x)))
                && self.error_map()[ErrorTarget::Node(NodeId(x))].kind@ is Execution implies exists|i: int|
                0 <= i < r@.len() && (#[trigger] r@[i]).0@ == seq![x] by {
                let j = choose|j: int| 0 <= j < errs.spec_len() && #[trigger] errs.key_at(j) == ErrorTarget::Node(NodeId(x));
                assert(keys@[j]@ == ErrorTarget::Node(NodeId(x)));
            }
        }
        r
    }
}

/// The ids of the planned nodes that need the asynchronous kernel, in plan
/// order; a path with no last segment names no node and is passed over.
pub open spec fn async_leaves(planned: Seq<(NodePath, Option<NodeExecutionKind>)>) -> Seq<u128>
    decreases planned.len(),
{
    if planned.len() == 0 {
        Seq::empty()
    } else {
        let rest = async_leaves(planned.drop_last());
        let p = planned.last().0;
        if planned.last().1 == Some(NodeExecutionKind::AsyncIo) && p@.len() > 0 {
            rest.push(p@.last())
        } else {
            rest
        }
    }
}

/// Checks a plan that the synchronous kernel is to run: each planned path
/// comes with the kind of its node (`None` where none is known). Refuses,
/// with the ids of every node of kind `AsyncIo` in plan order, when there is
/// one.
pub fn reject_async_in_sync_plan(planned: &Vec<(NodePath, Option<NodeExecutionKind>)>) -> (r: Result<
    (),
    GraphExecutionError,
>)
    ensures
        r is Ok <==> async_leaves(planned@).len() == 0,
        r matches Err(e) ==> (e matches GraphExecutionError::RequiresAsyncExecution { node_ids } && key_seq(
            node_ids@,
        ) == async_leaves(planned@)),
{
    let mut ids: Vec<NodeId> = Vec::new();
    let mut i: usize = 0;
    while i < planned.len()
        invariant
            i <= planned@.len(),
            key_seq(ids@) == async_leaves(planned@.subrange(0, i as int)),
        decreases planned@.len() - i,
    {
        assert(planned@.subrange(0, i + 1).drop_last() =~= planned@.subrange(0, i as int));
        let is_async = match planned[i].1 {
            Some(NodeExecutionKind::AsyncIo) => true,
            _ => false,
        };
        if is_async {
            match planned[i].0.leaf() {
                Some(id) => {
                    let ghost before = ids@;
                    ids.push(id);
                    assert(key_seq(ids@) =~= key_seq(before).push(id@));
                },
                None => {},
            }
        }
        i = i + 1;
    }
    assert(planned@.subrange(0, planned@.len() as int) =~= planned@);
    if ids.len() == 0 {
        Ok(())
    } else {
        Err(GraphExecutionError::RequiresAsyncExecution { node_ids: ids })
    }
}

/// Whether the node at `p` is an interface node.
pub open spec fn is_interface<D, V>(ns: &NodeStates<D, V>, p: Seq<u128>) -> bool {
    ns.node_map().dom().contains(p) && ns.node_map()[p].type_label@ == interface_name()
}

/// The value on output `a.1` of interface node `a.0` is the one carried
/// into its input `a.1` by an edge from output `b.1` of `b.0`.
pub open spec fn walks_to<D, V>(ns: &NodeStates<D, V>, a: (Seq<u128>, usize), b: (Seq<u128>, usize)) -> bool {
    &&& is_interface(ns, a.0)
    &&& a.1 < ns.inputs(a.0).len()
    &&& exists|x: u128| #![trigger ns.edge_map()[x]]
        ns.input_edges(ns.inputs(a.0)[a.1 as int].id@).contains(x) && ns.edge_map().dom().contains(x)
            && ns.edge_map()[x].from_node@ == b.0 && ns.edge_map()[x].from_output_slot_index == b.1
}

/// `chain` walks back from `a` through interface nodes to a changed node
/// that is not an interface node.
pub open spec fn reaches_change<D, V>(ns: &NodeStates<D, V>, changed: Set<Seq<u128>>, a: (Seq<u128>, usize), chain: Seq<(Seq<u128>, usize)>) -> bool {
    &&& chain.len() > 0
    &&& chain[0] == a
    &&& forall|i: int| 0 <= i < chain.len() - 1 ==> #[trigger] walks_to(ns, chain[i], chain[i + 1])
    &&& !is_interface(ns, chain.last().0)
    &&& changed.contains(chain.last().0)
}

/// Where the value carried by edge `x` comes from.
pub open spec fn edge_source<D, V>(ns: &NodeStates<D, V>, x: u128) -> (Seq<u128>, usize) {
    (ns.edge_map()[x].from_node@, ns.edge_map()[x].from_output_slot_index)
}

/// Edge `x` exists and no changed node feeds its value, directly or
/// through interface nodes.
pub open spec fn unchanged_via<D, V>(ns: &NodeStates<D, V>, changed: Set<Seq<u128>>, x: u128) -> bool {
    &&& ns.edge_map().dom().contains(x)
    &&& forall|chain: Seq<(Seq<u128>, usize)>| !#[trigger] reaches_change(ns, changed, edge_source(ns, x), chain)
}

/// The walk that decides whether the value on output `idx` of `from`
/// changed, the output pairs in `seen` being walked already. An ordinary
/// node answers whether it changed. An interface node is looked through,
/// back along the edges into its input `idx` in connection order, each
/// source walked in turn with the pairs walked so far; it answers `true`
/// when it was walked already, is directly dirty (in `seed`), lacks the
/// input, or has a dangling edge id there. Returns the answer and the
/// pairs walked by then.
pub open spec fn walk_changed<D, V>(
    ns: &NodeStates<D, V>,
    seed: Set<Seq<u128>>,
    changed: Set<Seq<u128>>,
    from: Seq<u128>,
    idx: usize,
    seen: Seq<(Seq<u128>, usize)>,
) -> (bool, Seq<(Seq<u128>, usize)>)
    decreases usize::MAX - seen.len(), 0int, 0int,
{
    if seen.len() > usize::MAX {
        (true, seen)
    } else if !is_interface(ns, from) {
        (changed.contains(from), seen)
    } else if seen.contains((from, idx)) || seen.len() == usize::MAX {
        (true, seen)
    } else if seed.contains(from) || idx >= ns.inputs(from).len() {
        (true, seen.push((from, idx)))
    } else {
        walk_edges_changed(ns, seed, changed, ns.input_edges(ns.inputs(from)[idx as int].id@), 0, seen.push((from, idx)))
    }
}

/// The walk through the edges `es`, from the `k`-th on.
pub open spec fn walk_edges_changed<D, V>(
    ns: &NodeStates<D, V>,
    seed: Set<Seq<u128>>,
    changed: Set<Seq<u128>>,
    es: Seq<u128>,
    k: int,
    seen: Seq<(Seq<u128>, usize)>,
) -> (bool, Seq<(Seq<u128>, usize)>)
    decreases usize::MAX - seen.len(), 1int, es.len() - k,
{
    if seen.len() > usize::MAX || k < 0 || k >= es.len() {
        (false, seen)
    } else if !ns.edge_map().dom().contains(es[k]) {
        (true, seen)
    } else {
        let src = edge_source(ns, es[k]);
        let (c, s2) = walk_changed(ns, seed, changed, src.0, src.1, seen);
        if c {
            (true, s2)
        } else if seen.len() <= s2.len() <= usize::MAX {
            walk_edges_changed(ns, seed, changed, es, k + 1, s2)
        } else {
            walk_edges_changed(ns, seed, changed, es, k + 1, seen)
        }
    }
}

proof fn lemma_filter_step(s: Seq<Seq<u128>>, f: spec_fn(Seq<u128>) -> bool)
    requires
        s.len() > 0,
    ensures
        s.filter(f) == if f(s.last()) {
            s.drop_last().filter(f).push(s.last())
        } else {
            s.drop_last().filter(f)
        },
{
    reveal(Seq::filter);
}

/// The value-based cutoff of one pass: the directly dirty nodes, and the
/// nodes whose outputs changed so far.
pub struct ChangeFrontier {
    seed: Vec<NodePath>,
    changed: Vec<NodePath>,
}

impl ChangeFrontier {
    /// The directly dirty nodes.
    pub closed spec fn seed_set(&self) -> Set<Seq<u128>> {
        key_seq(self.seed@).to_set()
    }

    /// The nodes whose outputs changed so far in this pass.
    pub closed spec fn changed_set(&self) -> Set<Seq<u128>> {
        key_seq(self.changed@).to_set()
    }

    /// A frontier with the given seeds and nothing changed yet.
    pub fn new(seed: Vec<NodePath>) -> (r: Self)
        ensures
            r.seed_set() == key_seq(seed@).to_set(),
            r.changed_set() == Set::<Seq<u128>>::empty(),
    {
        let r = ChangeFrontier { seed, changed: Vec::new() };
        assert(key_seq(r.changed@).to_set() =~= Set::<Seq<u128>>::empty());
        r
    }

    /// Records that `path` produced outputs downstream must see.
    pub fn mark_changed(&mut self, path: NodePath)
        ensures
            final(self).seed_set() == old(self).seed_set(),
            final(self).changed_set() == old(self).changed_set().insert(path@),
    {
        let ghost before = key_seq(self.changed@);
        let ghost pv = path@;
        self.changed.push(path);
        proof {
            assert(key_seq(self.changed@) =~= before.push(pv));
            before.lemma_push_to_set_commute(pv);
        }
    }

    fn is_interface_at<D, V>(ns: &NodeStates<D, V>, p: &NodePath) -> (r: bool)
        requires
            ns.wf(),
        ensures
            r == is_interface(ns, p@),
    {
        match ns.get(p) {
            None => false,
            Some(st) => {
                proof {
                    reveal_strlit("InterfaceNode");
                }
                str_eq(st.type_label, "InterfaceNode")
            },
        }
    }

    /// Edge `x` is dangling, or the walk from its source finds a change.
    pub open spec fn edge_moves<D, V>(&self, ns: &NodeStates<D, V>, x: u128) -> bool {
        !ns.edge_map().dom().contains(x) || walk_changed(
            ns,
            self.seed_set(),
            self.changed_set(),
            edge_source(ns, x).0,
            edge_source(ns, x).1,
            Seq::empty(),
        ).0
    }

    /// Whether the node at `p` must run in this pass: it is directly dirty,
    /// it has no incoming edge, or some incoming edge moves (each decided
    /// on a walk of its own).
    pub open spec fn runs<D, V>(&self, ns: &NodeStates<D, V>, p: Seq<u128>) -> bool {
        ||| self.seed_set().contains(p)
        ||| ns.incoming(p).len() == 0
        ||| exists|j: int| 0 <= j < ns.incoming(p).len() && self.edge_moves(ns, #[trigger] ns.incoming(p)[j])
    }

    /// What `source_changed` answers for output `idx` of `from`: the
    /// changed state of an ordinary node; `true` for a directly dirty
    /// interface node or a missing slot; and `false` only when no changed
    /// node feeds the value through interface nodes.
    pub open spec fn walk_result<D, V>(&self, ns: &NodeStates<D, V>, from: Seq<u128>, idx: usize, r: bool) -> bool {
        &&& !is_interface(ns, from) ==> r == self.changed_set().contains(from)
        &&& is_interface(ns, from) && (self.seed_set().contains(from) || idx >= ns.inputs(from).len()) ==> r
        &&& !r ==> forall|chain: Seq<(Seq<u128>, usize)>| !#[trigger] reaches_change(ns, self.changed_set(), (from, idx), chain)
    }

    fn walk<D, V>(
        &self,
        ns: &NodeStates<D, V>,
        from_node: &NodePath,
        from_output_slot_index: usize,
        seen: Vec<(NodePath, usize)>,
    ) -> (out: (bool, Vec<(NodePath, usize)>))
        requires
            ns.wf(),
        ensures
            out.0 == walk_changed(ns, self.seed_set(), self.changed_set(), from_node@, from_output_slot_index, pairs_view(seen@)).0,
            pairs_view(out.1@) == walk_changed(ns, self.seed_set(), self.changed_set(), from_node@, from_output_slot_index, pairs_view(seen@)).1,
            self.walk_result(ns, from_node@, from_output_slot_index, out.0),
            out.1@.len() >= seen@.len(),
        decreases usize::MAX - seen@.len(),
    {
        let mut visited = seen;
        let ghost entry = seen@.len();
        let ghost sv = pairs_view(seen@);
        let sl = visited.len();
        assert(sl == sv.len());
        if !Self::is_interface_at(ns, from_node) {
            let r = vec_has_key(&self.changed, from_node);
            proof {
                if !r {
                    assert forall|chain: Seq<(Seq<u128>, usize)>| !#[trigger] reaches_change(
                        ns,
                        self.changed_set(),
                        (from_node@, from_output_slot_index),
                        chain,
                    ) by {
                        if reaches_change(ns, self.changed_set(), (from_node@, from_output_slot_index), chain) {
                            if chain.len() > 1 {
                                assert(walks_to(ns, chain[0int], chain[0int + 1]));
                            }
                        }
                    }
                }
            }
            return (r, visited);
        }
        let mut i: usize = 0;
        while i < visited.len()
            invariant
                i <= visited@.len(),
                is_interface(ns, from_node@),
                entry == seen@.len(),
                visited@ == seen@,
                sv == pairs_view(seen@),
                forall|j: int| 0 <= j < i ==> !((#[trigger] visited@[j]).0@ == from_node@ && visited@[j].1 == from_output_slot_index),
            decreases visited@.len() - i,
        {
            if visited[i].0.same_path(from_node) && visited[i].1 == from_output_slot_index {
                proof {
                    assert(sv[i as int] == (from_node@, from_output_slot_index));
                }
                return (true, visited);
            }
            i = i + 1;
        }
        proof {
            if sv.contains((from_node@, from_output_slot_index)) {
                let j = choose|j: int| 0 <= j < sv.len() && sv[j] == (from_node@, from_output_slot_index);
                assert(visited@[j].0@ == from_node@ && visited@[j].1 == from_output_slot_index);
            }
        }
        if visited.len() == usize::MAX {
            return (true, visited);
        }
        visited.push((from_node.clone(), from_output_slot_index));
        assert(pairs_view(visited@) =~= sv.push((from_node@, from_output_slot_index)));
        if vec_has_key(&self.seed, from_node) {
            return (true, visited);
        }
        let sid = match ns.input_slot(from_node, from_output_slot_index) {
            None => {
                return (true, visited);
            },
            Some(s) => s.id,
        };
        let upstream = ns.edges_for_input(&sid);
        let ghost es = key_seq(upstream@);
        let ghost target = walk_changed(ns, self.seed_set(), self.changed_set(), from_node@, from_output_slot_index, sv);
        assert(target == walk_edges_changed(ns, self.seed_set(), self.changed_set(), es, 0, pairs_view(visited@)));
        let mut k: usize = 0;
        while k < upstream.len()
            invariant
                ns.wf(),
                is_interface(ns, from_node@),
                from_output_slot_index < ns.inputs(from_node@).len(),
                sid@ == ns.inputs(from_node@)[from_output_slot_index as int].id@,
                es == key_seq(upstream@),
                es == ns.input_edges(sid@),
                k <= upstream@.len(),
                visited@.len() > entry,
                entry == seen@.len(),
                sv == pairs_view(seen@),
                target == walk_changed(ns, self.seed_set(), self.changed_set(), from_node@, from_output_slot_index, sv),
                target == walk_edges_changed(ns, self.seed_set(), self.changed_set(), es, k as int, pairs_view(visited@)),
                forall|j: int| 0 <= j < k ==> unchanged_via(ns, self.changed_set(), (#[trigger] upstream@[j])@),
            decreases upstream@.len() - k,
        {
            assert(es[k as int] == upstream@[k as int]@);
            let vl = visited.len();
            assert(vl == pairs_view(visited@).len());
            let e = match ns.get_edge(&upstream[k]) {
                None => {
                    return (true, visited);
                },
                Some(e) => e,
            };
            let n = visited.len();
            assert(n == visited@.len());
            let ghost before = pairs_view(visited@);
            let (c, v) = self.walk(ns, &e.from_node, e.from_output_slot_index, visited);
            visited = v;
            let m = visited.len();
            proof {
                assert(m == visited@.len());
                assert(pairs_view(visited@).len() == visited@.len());
                assert(before.len() == n);
                assert(edge_source(ns, es[k as int]) == (e.from_node@, e.from_output_slot_index));
                let w = walk_changed(ns, self.seed_set(), self.changed_set(), e.from_node@, e.from_output_slot_index, before);
                assert(c == w.0);
                assert(pairs_view(visited@) == w.1);
                if !c {
                    assert(before.len() <= w.1.len() <= usize::MAX);
                    assert(target == walk_edges_changed(ns, self.seed_set(), self.changed_set(), es, k + 1, w.1));
                }
            }
            if c {
                return (true, visited);
            }
            assert(unchanged_via(ns, self.changed_set(), upstream@[k as int]@));
            k = k + 1;
        }
        proof {
            assert forall|chain: Seq<(Seq<u128>, usize)>| !#[trigger] reaches_change(
                ns,
                self.changed_set(),
                (from_node@, from_output_slot_index),
                chain,
            ) by {
                if reaches_change(ns, self.changed_set(), (from_node@, from_output_slot_index), chain) {
                    assert(chain.len() > 1);
                    assert(walks_to(ns, chain[0int], chain[0int + 1]));
                    let x = choose|x: u128| #![trigger ns.edge_map()[x]]
                        ns.input_edges(ns.inputs(from_node@)[from_output_slot_index as int].id@).contains(x)
                            && ns.edge_map().dom().contains(x) && ns.edge_map()[x].from_node@ == chain[1].0
                            && ns.edge_map()[x].from_output_slot_index == chain[1].1;
                    let j = choose|j: int| 0 <= j < key_seq(upstream@).len() && key_seq(upstream@)[j] == x;
                    assert(upstream@[j]@ == x);
                    let tail = chain.subrange(1, chain.len() as int);
                    assert(tail[0] == chain[1]);
                    assert forall|t: int| 0 <= t < tail.len() - 1 implies #[trigger] walks_to(ns, tail[t], tail[t + 1]) by {
                        assert(walks_to(ns, chain[t + 1], chain[(t + 1) + 1]));
                    }
                    assert(tail.last() == chain.last());
                    assert(reaches_change(ns, self.changed_set(), edge_source(ns, x), tail));
                    assert(unchanged_via(ns, self.changed_set(), upstream@[j]@));
                }
            }
        }
        (false, visited)
    }

    /// Whether the value delivered on output `from_output_slot_index` of
    /// `from_node` changed in this pass. For an ordinary node that is
    /// whether the node changed; an interface node is looked through, back
    /// along the edges into its input of the same index. A revisited
    /// interface output, a directly dirty interface node, a missing slot
    /// or a dangling edge id answer `true`. A `false` answer means no
    /// changed node feeds the value through interface nodes.
    pub fn source_changed<D, V>(
        &self,
        ns: &NodeStates<D, V>,
        from_node: &NodePath,
        from_output_slot_index: usize,
        visited: &mut Vec<(NodePath, usize)>,
    ) -> (r: bool)
        requires
            ns.wf(),
        ensures
            r == walk_changed(ns, self.seed_set(), self.changed_set(), from_node@, from_output_slot_index, pairs_view(old(visited)@)).0,
            pairs_view(final(visited)@) == walk_changed(ns, self.seed_set(), self.changed_set(), from_node@, from_output_slot_index, pairs_view(old(visited)@)).1,
            self.walk_result(ns, from_node@, from_output_slot_index, r),
            final(visited)@.len() >= old(visited)@.len(),
    {
        let mut v: Vec<(NodePath, usize)> = Vec::new();
        std::mem::swap(&mut v, visited);
        let (r, back) = self.walk(ns, from_node, from_output_slot_index, v);
        *visited = back;
        r
    }

    /// Whether the node at `path` must run in this pass: it is directly
    /// dirty, it has no incoming edge, an incoming edge id is dangling, or
    /// the value on some incoming edge changed. A `false` answer means no
    /// changed node feeds any of its incoming edges, directly or through
    /// interface nodes.
    pub fn must_execute<D, V>(&self, path: &NodePath, ns: &NodeStates<D, V>) -> (r: bool)
        requires
            ns.wf(),
        ensures
            r == self.runs(ns, path@),
            self.seed_set().contains(path@) ==> r,
            ns.incoming(path@).len() == 0 ==> r,
            !r ==> forall|j: int| 0 <= j < ns.incoming(path@).len() ==> unchanged_via(ns, self.changed_set(), #[trigger] ns.incoming(path@)[j]),
    {
        if vec_has_key(&self.seed, path) {
            return true;
        }
        let incoming = ns.incoming_edges_at(path);
        if incoming.len() == 0 {
            return true;
        }
        let mut k: usize = 0;
        while k < incoming.len()
            invariant
                ns.wf(),
                key_seq(incoming@) == ns.incoming(path@),
                k <= incoming@.len(),
                !self.seed_set().contains(path@),
                forall|j: int| 0 <= j < k ==> unchanged_via(ns, self.changed_set(), (#[trigger] incoming@[j])@),
                forall|j: int| 0 <= j < k ==> !self.edge_moves(ns, #[trigger] ns.incoming(path@)[j]),
            decreases incoming@.len() - k,
        {
            let e = match ns.get_edge(&incoming[k]) {
                None => {
                    assert(self.edge_moves(ns, ns.incoming(path@)[k as int]));
                    return true;
                },
                Some(e) => e,
            };
            let mut visited: Vec<(NodePath, usize)> = Vec::new();
            assert(pairs_view(visited@) =~= Seq::<(Seq<u128>, usize)>::empty());
            proof {
                assert(incoming@[k as int]@ == ns.incoming(path@)[k as int]);
                assert(edge_source(ns, incoming@[k as int]@) == (e.from_node@, e.from_output_slot_index));
            }
            if self.source_changed(ns, &e.from_node, e.from_output_slot_index, &mut visited) {
                assert(self.edge_moves(ns, ns.incoming(path@)[k as int]));
                return true;
            }
            assert(!self.edge_moves(ns, ns.incoming(path@)[k as int]));
            assert(unchanged_via(ns, self.changed_set(), incoming@[k as int]@));
            k = k + 1;
        }
        proof {
            assert forall|j: int| 0 <= j < ns.incoming(path@).len() implies unchanged_via(ns, self.changed_set(), #[trigger] ns.incoming(path@)[j]) by {
                assert(incoming@[j]@ == ns.incoming(path@)[j]);
            }
        }
        false
    }

    /// The members of `level` that must run.
    pub fn level_to_run<D, V>(&self, level: &Vec<NodePath>, ns: &NodeStates<D, V>) -> (r: Vec<NodePath>)
        requires
            ns.wf(),
        ensures
            key_seq(r@) == key_seq(level@).filter(|p: Seq<u128>| self.runs(ns, p)),
            key_seq(r@).to_set().subset_of(key_seq(level@).to_set()),
            forall|p: Seq<u128>| key_seq(level@).contains(p) && self.seed_set().contains(p) ==> key_seq(r@).contains(p),
            forall|p: Seq<u128>| key_seq(level@).contains(p) && ns.incoming(p).len() == 0 ==> key_seq(r@).contains(p),
            forall|p: Seq<u128>| key_seq(level@).contains(p) && !key_seq(r@).contains(p) ==> forall|j: int|
                0 <= j < ns.incoming(p).len() ==> unchanged_via(ns, self.changed_set(), #[trigger] ns.incoming(p)[j]),
    {
        let mut r: Vec<NodePath> = Vec::new();
        let mut i: usize = 0;
        proof {
            assert(key_seq(level@).subrange(0, 0) =~= Seq::<Seq<u128>>::empty());
            assert(Seq::<Seq<u128>>::empty().filter(|p: Seq<u128>| self.runs(ns, p)) =~= Seq::<Seq<u128>>::empty()) by {
                reveal(Seq::filter);
            }
        }
        while i < level.len()
            invariant
                ns.wf(),
                i <= level@.len(),
                key_seq(r@) == key_seq(level@).subrange(0, i as int).filter(|p: Seq<u128>| self.runs(ns, p)),
                forall|t: int| 0 <= t < r@.len() ==> exists|j: int| 0 <= j < i && (#[trigger] r@[t])@ == level@[j]@,
                forall|j: int| 0 <= j < i ==> {
                    let p = (#[trigger] level@[j])@;
                    key_seq(r@).contains(p) || (!self.seed_set().contains(p) && ns.incoming(p).len() > 0 && forall|jj: int| 0 <= jj < ns.incoming(p).len() ==> unchanged_via(ns, self.changed_set(), #[trigger] ns.incoming(p)[jj]))
                },
            decreases level@.len() - i,
        {
            let ghost before = r@;
            proof {
                let sub = key_seq(level@).subrange(0, i + 1);
                assert(sub.drop_last() =~= key_seq(level@).subrange(0, i as int));
                assert(sub.last() == level@[i as int]@);
                lemma_filter_step(sub, |p: Seq<u128>| self.runs(ns, p));
            }
            if self.must_execute(&level[i], ns) {
                r.push(level[i].clone());
                proof {
                    assert(key_seq(r@) =~= key_seq(before).push(level@[i as int]@));
                    assert forall|j: int| 0 <= j < i implies {
                        let p = (#[trigger] level@[j])@;
                        key_seq(r@).contains(p) || (!self.seed_set().contains(p) && ns.incoming(p).len() > 0 && forall|jj: int| 0 <= jj < ns.incoming(p).len() ==> unchanged_via(ns, self.changed_set(), #[trigger] ns.incoming(p)[jj]))
                    } by {
                        if key_seq(before).contains(level@[j]@) {
                            let t = choose|t: int| 0 <= t < key_seq(before).len() && key_seq(before)[t] == level@[j]@;
                            assert(key_seq(r@)[t] == level@[j]@);
                        }
                    }
                    assert(key_seq(r@)[before.len() as int] == level@[i as int]@);
                    assert forall|t: int| 0 <= t < r@.len() implies exists|j: int| 0 <= j < i + 1 && (#[trigger] r@[t])@ == level@[j]@ by {
                        if t < before.len() {
                            assert(r@[t] == before[t]);
                        }
                    }
                }
            }
            i = i + 1;
        }
        proof {
            assert(key_seq(level@).subrange(0, level@.len() as int) =~= key_seq(level@));
            assert forall|p: Seq<u128>| key_seq(r@).to_set().contains(p) implies key_seq(level@).to_set().contains(p) by {
                let t = choose|t: int| 0 <= t < key_seq(r@).len() && key_seq(r@)[t] == p;
                assert(r@[t]@ == p);
                let j = choose|j: int| 0 <= j < i && (#[trigger] r@[t])@ == level@[j]@;
                assert(key_seq(level@)[j] == p);
            }
            assert forall|p: Seq<u128>| key_seq(level@).contains(p) implies {
                key_seq(r@).contains(p) || (!self.seed_set().contains(p) && ns.incoming(p).len() > 0 && forall|jj: int| 0 <= jj < ns.incoming(p).len() ==> unchanged_via(ns, self.changed_set(), #[trigger] ns.incoming(p)[jj]))
            } by {
                let j = choose|j: int| 0 <= j < key_seq(level@).len() && key_seq(level@)[j] == p;
                assert(level@[j]@ == p);
            }
        }
        r
    }
}

} // verus!
