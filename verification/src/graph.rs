//! The node graph: node states, the SubGraph boundaries placed in it, the
//! error registry and the removal record, with the operations that keep
//! them consistent.

use vstd::prelude::*;
use crate::assoc::{key_seq, vec_has_key, AssocMap, MapKey};
use crate::data_type::{str_eq, DataType};
use crate::error::{decimal_string, decimal_text, message_text, str_debug, str_debug_text, type_debug_string, ErrorTarget, GraphError, KindView};
use crate::ids::{EdgeId, InputSlotId, NodeId, OutputSlotId};
use crate::meta::{InterfaceDirection, InterfaceNodeData, SlotDef};
use crate::node_path::{path_display, NodePath};
use crate::node_state::{
    advanced, same_ends, shift_source_down, shift_target_down, Edge, EdgeShape, InputSlotState, NodeData, NodeState,
    NodeStates, OutputSlotState,
};

verus! {

/// Type identity of the SubGraph node type.
#[verifier::external_body]
fn subgraph_type_id() -> (r: std::any::TypeId) {
    std::any::TypeId::of::<SubGraphNode>()
}

/// Type identity of the interface node type.
#[verifier::external_body]
fn interface_type_id() -> (r: std::any::TypeId) {
    std::any::TypeId::of::<crate::meta::InterfaceNode>()
}

/// A transparent containment boundary. Its children live in the graph at
/// paths below its own; the two interface nodes named here are its
/// external input and output surfaces.
#[derive(Debug)]
pub struct SubGraphNode {
    pub input_proxy_id: NodeId,
    pub output_proxy_id: NodeId,
    pub label: String,
    pub template_type_id: Option<std::any::TypeId>,
}

impl SubGraphNode {
    /// The label, as text.
    pub open spec fn label_text(&self) -> Seq<char> {
        self.label@
    }

    /// The template type the SubGraph was built from, if any.
    pub open spec fn template(&self) -> Option<std::any::TypeId> {
        self.template_type_id
    }

    /// A boundary with the given proxies and label, and no template.
    pub fn with_proxies(input_proxy_id: NodeId, output_proxy_id: NodeId, label: String) -> (r: Self)
        ensures
            r.input_proxy_id == input_proxy_id,
            r.output_proxy_id == output_proxy_id,
            r.label_text() == label@,
            r.template() is None,
    {
        SubGraphNode { input_proxy_id, output_proxy_id, label, template_type_id: None }
    }

    /// Local id of the interface node that carries the inputs.
    pub fn input_proxy_id(&self) -> (r: NodeId)
        ensures
            r == self.input_proxy_id,
    {
        self.input_proxy_id
    }

    /// Local id of the interface node that carries the outputs.
    pub fn output_proxy_id(&self) -> (r: NodeId)
        ensures
            r == self.output_proxy_id,
    {
        self.output_proxy_id
    }

    /// The label.
    pub fn label(&self) -> (r: &str)
        ensures
            r@ == self.label_text(),
    {
        self.label.as_str()
    }

    /// Replaces the label.
    pub fn set_label(&mut self, label: String)
        ensures
            final(self).label_text() == label@,
            final(self).input_proxy_id == old(self).input_proxy_id,
            final(self).output_proxy_id == old(self).output_proxy_id,
            final(self).template() == old(self).template(),
    {
        self.label = label;
    }

    /// The template type, if any.
    pub fn template_type_id(&self) -> (r: Option<std::any::TypeId>)
        ensures
            r == self.template(),
    {
        self.template_type_id
    }

    /// Records the template type.
    pub fn set_template_type_id(&mut self, type_id: std::any::TypeId)
        ensures
            final(self).template() == Some(type_id),
            final(self).label_text() == old(self).label_text(),
            final(self).input_proxy_id == old(self).input_proxy_id,
            final(self).output_proxy_id == old(self).output_proxy_id,
    {
        self.template_type_id = Some(type_id);
    }
}

/// `s` with `x` appended unless it already holds it.
pub open spec fn recorded(s: Seq<u128>, x: u128) -> Seq<u128> {
    if s.contains(x) { s } else { s.push(x) }
}

/// Message of a refused node placement.
pub open spec fn already_registered_text(p: Seq<u128>) -> Seq<char> {
    "add_node_at_locked: path "@ + path_display(p) + " already registered"@
}

/// Message of a refused SubGraph placement.
pub open spec fn collision_text(parent: Seq<u128>) -> Seq<char> {
    "add_subgraph_at_with_id: path collision under "@ + path_display(parent)
}

/// Debug text of a node id.
pub open spec fn node_id_debug_text(id: u128) -> Seq<char> {
    "NodeId(Ulid("@ + decimal_text(id as nat) + "))"@
}

/// Debug text of an edge id.
pub open spec fn edge_id_debug_text(id: u128) -> Seq<char> {
    "EdgeId(Ulid("@ + decimal_text(id as nat) + "))"@
}

fn node_id_not_found_message(id: &NodeId) -> (r: String)
    ensures
        r@ == "Node "@ + node_id_debug_text(id@) + " not found"@,
{
    let mut s = String::from_str("Node NodeId(Ulid(");
    let d = decimal_string(id.0);
    s.append(d.as_str());
    s.append(")) not found");
    proof {
        reveal_strlit("Node NodeId(Ulid(");
        reveal_strlit("Node ");
        reveal_strlit("NodeId(Ulid(");
        reveal_strlit(")) not found");
        reveal_strlit("))");
        reveal_strlit(" not found");
    }
    assert(s@ =~= "Node "@ + node_id_debug_text(id@) + " not found"@);
    s
}

/// Type name of SubGraph nodes.
pub open spec fn subgraph_name() -> Seq<char> {
    "SubGraph"@
}

/// Type name of interface nodes.
pub open spec fn interface_name() -> Seq<char> {
    "InterfaceNode"@
}

/// The node record of an interface proxy facing `direction`, with no
/// port locked.
pub open spec fn proxy_record<D>(st: NodeState<D>, direction: InterfaceDirection) -> bool {
    &&& st.type_label@ == interface_name()
    &&& st.rust_type_id is Some
    &&& st.data matches Some(NodeData::Interface(d)) && d.direction == direction && d.locked@.len() == 0
}

/// Message when a SubGraph's input proxy lacks the slot an edge targets.
pub open spec fn input_proxy_missing_text(proxy: Seq<u128>, index: usize) -> Seq<char> {
    "add_edge: InputProxy at "@ + path_display(proxy) + " has no input slot "@ + decimal_text(index as nat)
        + " (SubGraph external slot exists but the proxy is missing it \u{2014} schema mismatch)"@
}

/// Message when a SubGraph's output proxy lacks the slot an edge leaves.
pub open spec fn output_proxy_missing_text(proxy: Seq<u128>, index: usize) -> Seq<char> {
    "add_edge: OutputProxy at "@ + path_display(proxy) + " has no output slot "@ + decimal_text(index as nat)
        + " (SubGraph external slot exists but the proxy is missing it \u{2014} schema mismatch)"@
}

/// `new` is `old` with the error on `cleared` dropped and `err` recorded.
pub open spec fn error_replaced(
    new: Map<ErrorTarget, GraphError>,
    prev: Map<ErrorTarget, GraphError>,
    cleared: ErrorTarget,
    err: (ErrorTarget, KindView),
) -> bool {
    &&& new.dom() == prev.dom().remove(cleared).insert(err.0)
    &&& new[err.0]@ == err
    &&& forall|t: ErrorTarget| t != err.0 && t != cleared && #[trigger] new.dom().contains(t) ==> new[t] == prev[t]
}

/// Message when no node sits at a path.
pub open spec fn no_node_at_text(p: Seq<u128>) -> Seq<char> {
    "Node at path "@ + path_display(p) + " not found"@
}

/// Message when a default is written to a missing slot.
pub open spec fn default_slot_missing_text(op: Seq<char>, index: usize, p: Seq<u128>) -> Seq<char> {
    op + ": slot "@ + decimal_text(index as nat) + " not found at path "@ + path_display(p)
}

/// Message when a SubGraph's input proxy lacks the slot a default is
/// mirrored to.
pub open spec fn default_proxy_missing_text(op: Seq<char>, index: usize, p: Seq<u128>) -> Seq<char> {
    op + ": InputProxy missing slot "@ + decimal_text(index as nat) + " for SubGraph at "@ + path_display(p)
}

/// Message when a SubGraph has no input proxy.
pub open spec fn no_input_proxy_text(op: Seq<char>, id: u128) -> Seq<char> {
    op + ": SubGraph "@ + node_id_debug_text(id) + " has no input proxy (schema corruption)"@
}

/// Message when a SubGraph lacks the external input slot a default is
/// written to.
pub open spec fn external_slot_missing_text(op: Seq<char>, index: usize, id: u128) -> Seq<char> {
    op + ": external slot "@ + decimal_text(index as nat) + " missing on SubGraph "@ + node_id_debug_text(id)
}

/// Message when the input proxy lacks the slot a default is mirrored to.
pub open spec fn proxy_slot_missing_text(op: Seq<char>, proxy: u128, index: usize) -> Seq<char> {
    op + ": InputProxy "@ + node_id_debug_text(proxy) + " missing slot "@ + decimal_text(index as nat)
        + " (schema mismatch with SubGraph external)"@
}

/// Message when the node a locked label is recorded on is missing.
pub open spec fn lock_target_missing_text(p: Seq<u128>) -> Seq<char> {
    "Node at "@ + path_display(p) + " disappeared mid-call"@
}

/// Start of the message when the node a locked label is recorded on holds
/// data other than interface data.
pub open spec fn lock_domain_text(p: Seq<u128>) -> Seq<char> {
    "InterfaceNode at "@ + path_display(p) + " has non-matching NodeData domain "@
}

/// Edges, edge lists and the children index agree.
pub open spec fn same_wiring<D, V>(a: &NodeStates<D, V>, b: &NodeStates<D, V>) -> bool {
    &&& a.edge_map() == b.edge_map()
    &&& a.same_edge_indexes(b)
    &&& a.same_children(b)
}

/// `new` is `old` with the default of slot `index` replaced by `value`.
pub open spec fn default_written<V>(new: Seq<InputSlotState<V>>, prev: Seq<InputSlotState<V>>, index: int, value: Option<V>) -> bool {
    &&& new.len() == prev.len()
    &&& forall|j: int| 0 <= j < new.len() && j != index ==> #[trigger] new[j] == prev[j]
    &&& new[index] == InputSlotState { default_value: value, ..prev[index] }
}

fn concat3(a: &str, b: &str, c: &str) -> (r: String)
    ensures
        r@ == a@ + b@ + c@,
{
    let mut s = String::from_str(a);
    s.append(b);
    s.append(c);
    s
}

/// What a node payload reports as its type, for messages.
pub trait PayloadType {
    fn payload_type(&self) -> DataType;
}

/// Direction and locked labels of interface data, the defaults when
/// there is none.
pub open spec fn interface_data_of<D>(data: Option<NodeData<D>>) -> (InterfaceDirection, Set<Seq<char>>) {
    match data {
        Some(NodeData::Interface(d)) => (d.direction, d.locked_labels()),
        _ => (InterfaceDirection::Input, Set::empty()),
    }
}

/// Index of the first slot labelled `label`, or `-1` when there is none.
pub open spec fn port_index<V>(slots: Seq<InputSlotState<V>>, label: Seq<char>) -> int
    decreases slots.len(),
{
    if slots.len() == 0 {
        -1
    } else {
        let r = port_index(slots.drop_last(), label);
        if r >= 0 {
            r
        } else if slots.last().label@ == label {
            slots.len() - 1
        } else {
            -1
        }
    }
}

proof fn lemma_port_index<V>(slots: Seq<InputSlotState<V>>, label: Seq<char>)
    ensures
        -1 <= port_index(slots, label) < slots.len(),
        port_index(slots, label) >= 0 ==> slots[port_index(slots, label)].label@ == label,
        port_index(slots, label) == -1 <==> forall|j: int| 0 <= j < slots.len() ==> #[trigger] slots[j].label@ != label,
        forall|j: int| 0 <= j < port_index(slots, label) ==> #[trigger] slots[j].label@ != label,
    decreases slots.len(),
{
    if slots.len() > 0 {
        let init = slots.drop_last();
        lemma_port_index(init, label);
        assert forall|j: int| 0 <= j < slots.len() - 1 implies init[j] == #[trigger] slots[j] by {}
        let r = port_index(init, label);
        if r < 0 {
            assert forall|j: int| 0 <= j < slots.len() - 1 implies #[trigger] slots[j].label@ != label by {
                assert(init[j].label@ != label);
            }
        } else {
            assert(port_index(slots, label) == r);
            assert forall|j: int| 0 <= j < r implies #[trigger] slots[j].label@ != label by {
                assert(init[j].label@ != label);
            }
        }
    }
}

proof fn lemma_port_index_prefix<V>(slots: Seq<InputSlotState<V>>, label: Seq<char>, k: int)
    requires
        0 <= k <= slots.len(),
        port_index(slots.subrange(0, k), label) >= 0,
    ensures
        port_index(slots, label) == port_index(slots.subrange(0, k), label),
    decreases slots.len() - k,
{
    if k < slots.len() {
        let t = slots.subrange(0, k + 1);
        assert(t.drop_last() =~= slots.subrange(0, k));
        lemma_port_index_prefix(slots, label, k + 1);
    } else {
        assert(slots.subrange(0, k) =~= slots);
    }
}

/// Debug text of a node id, as a string.
fn node_id_debug(id: &NodeId) -> (r: String)
    ensures
        r@ == node_id_debug_text(id@),
{
    let d = decimal_string(id.0);
    concat3("NodeId(Ulid(", d.as_str(), "))")
}

/// `new` is `old` with one input slot of the given fields appended.
pub open spec fn input_appended<V>(new: Seq<InputSlotState<V>>, prev: Seq<InputSlotState<V>>, label: &'static str, ty: DataType,
    max: Option<usize>, vis: bool) -> bool {
    &&& new.len() == prev.len() + 1
    &&& new.subrange(0, prev.len() as int) == prev
    &&& new[prev.len() as int].label == label
    &&& new[prev.len() as int].data_type == ty
    &&& new[prev.len() as int].max_connections == max
    &&& new[prev.len() as int].inspector_visible == vis
    &&& new[prev.len() as int].default_value is None
}

/// `new` is `old` with one output slot of the given fields appended.
pub open spec fn output_appended(new: Seq<OutputSlotState>, prev: Seq<OutputSlotState>, label: &'static str, ty: DataType) -> bool {
    &&& new.len() == prev.len() + 1
    &&& new.subrange(0, prev.len() as int) == prev
    &&& new[prev.len() as int].label == label
    &&& new[prev.len() as int].data_type == ty
}

/// `new` is `old` without its slot `i`, when there is one.
pub open spec fn slot_dropped<T>(new: Seq<T>, prev: Seq<T>, i: int) -> bool {
    if 0 <= i < prev.len() { new == prev.remove(i) } else { new == prev }
}

/// An edge surviving the removal of port `i` at the proxy `proxy`
/// (input side when `a`, output side when `b`) and at the SubGraph `sg`
/// (its input when `to_sg`, else its output, when `c`): each index above
/// a removed slot moves down by one.
pub open spec fn shifted_after_port_removal(e: Edge, proxy: Seq<u128>, sg: Seq<u128>, i: int, a: bool, b: bool, c: bool, to_sg: bool) -> Edge {
    let e1 = if a { crate::node_state::shift_target_down(e, proxy, i) } else { e };
    let e2 = if b { crate::node_state::shift_source_down(e1, proxy, i) } else { e1 };
    if c {
        if to_sg { crate::node_state::shift_target_down(e2, sg, i) } else { crate::node_state::shift_source_down(e2, sg, i) }
    } else {
        e2
    }
}

/// `new` is `old` with one element put in at `at`.
pub open spec fn put_at<T>(new: Seq<T>, prev: Seq<T>, at: int) -> bool {
    &&& new.len() == prev.len() + 1
    &&& forall|i: int| 0 <= i < at ==> #[trigger] new[i] == prev[i]
    &&& forall|i: int| at < i < new.len() ==> #[trigger] new[i] == prev[i - 1]
}

/// `at`, or the length of `s` when `at` is past it.
pub open spec fn clamp<T>(at: int, s: Seq<T>) -> int {
    if at < s.len() { at } else { s.len() as int }
}

/// Message when a port index is past the port count.
pub open spec fn out_of_range_text(op: Seq<char>, index: usize, count: nat) -> Seq<char> {
    op + ": index "@ + decimal_text(index as nat) + " out of range (count "@ + decimal_text(count) + ")"@
}

/// Message when a root-level node is not a SubGraph.
pub open spec fn not_subgraph_text(id: u128) -> Seq<char> {
    "Node "@ + node_id_debug_text(id) + " is not a SubGraphNode"@
}

/// The node graph.
pub struct NodeGraph<D, V> {
    states: NodeStates<D, V>,
    subgraphs: AssocMap<NodePath, SubGraphNode>,
    errors: AssocMap<ErrorTarget, GraphError>,
    removed: Vec<NodeId>,
}

impl<D, V> NodeGraph<D, V> {
    /// The graph is well formed: its node states, SubGraph table and error table are.
    pub closed spec fn wf(&self) -> bool {
        &&& self.states.wf()
        &&& self.subgraphs.wf()
        &&& self.errors.wf()
    }

    /// The node states.
    pub closed spec fn st(&self) -> NodeStates<D, V> {
        self.states
    }

    /// The SubGraph boundaries by path.
    pub closed spec fn subgraph_map(&self) -> Map<Seq<u128>, SubGraphNode> {
        self.subgraphs@
    }

    /// The recorded errors by target.
    pub closed spec fn error_map(&self) -> Map<ErrorTarget, GraphError> {
        self.errors@
    }

    /// Ids of the nodes removed since the removal record was last taken.
    pub closed spec fn removed_ids(&self) -> Seq<u128> {
        key_seq(self.removed@)
    }

    /// An empty graph.
    pub fn new() -> (r: Self)
        ensures
            r.wf(),
            r.st().node_map() == Map::<Seq<u128>, NodeState<D>>::empty(),
            r.st().edge_map() == Map::<u128, Edge>::empty(),
            r.st().changed() == Set::<Seq<u128>>::empty(),
            r.st().generation() == 0,
            forall|p: Seq<u128>| #[trigger] r.st().inputs(p) == Seq::<InputSlotState<V>>::empty(),
            forall|p: Seq<u128>| #[trigger] r.st().outputs(p) == Seq::<OutputSlotState>::empty(),
            forall|s: u128| #[trigger] r.st().input_edges(s) == Seq::<u128>::empty(),
            forall|s: u128| #[trigger] r.st().output_edges(s) == Seq::<u128>::empty(),
            forall|p: Seq<u128>| #[trigger] r.st().outgoing(p) == Seq::<u128>::empty(),
            forall|p: Seq<u128>| #[trigger] r.st().incoming(p) == Seq::<u128>::empty(),
            forall|p: Seq<u128>| #[trigger] r.st().children(p) == Seq::<u128>::empty(),
            r.subgraph_map() == Map::<Seq<u128>, SubGraphNode>::empty(),
            r.error_map() == Map::<ErrorTarget, GraphError>::empty(),
            r.removed_ids() == Seq::<u128>::empty(),
    {
        let r = NodeGraph {
            states: NodeStates::new(),
            subgraphs: AssocMap::new(),
            errors: AssocMap::new(),
            removed: Vec::new(),
        };
        assert(key_seq(r.removed@) =~= Seq::<u128>::empty());
        r
    }

    /// A well-formed graph holds well-formed node states.
    pub proof fn lemma_wf_states(&self)
        requires
            self.wf(),
        ensures
            self.st().wf(),
    {
    }

    /// The node states, for queries.
    pub fn node_states(&self) -> (r: &NodeStates<D, V>)
        ensures
            *r == self.st(),
            self.wf() ==> r.wf(),
    {
        &self.states
    }

    /// Write access to the node states; the SubGraph boundaries, errors
    /// and removal record are left as they are.
    pub fn node_states_mut(&mut self) -> (r: &mut NodeStates<D, V>)
        requires
            old(self).wf(),
        ensures
            *r == old(self).st(),
            r.wf(),
            final(self).st() == *final(r),
            final(r).wf() ==> final(self).wf(),
            final(self).subgraph_map() == old(self).subgraph_map(),
            final(self).error_map() == old(self).error_map(),
            final(self).removed_ids() == old(self).removed_ids(),
    {
        &mut self.states
    }

    /// The structural generation: moves on every change of which nodes,
    /// slots and edges exist, never on data writes or execution.
    pub fn structure_generation(&self) -> (r: u64)
        ensures
            r == self.st().generation(),
    {
        self.states.structure_generation()
    }

    // === Error registry ===

    /// The recorded errors.
    pub fn errors(&self) -> (r: &AssocMap<ErrorTarget, GraphError>)
        ensures
            r@ == self.error_map(),
            self.wf() ==> r.wf(),
    {
        &self.errors
    }

    /// Whether any error is recorded.
    pub fn has_errors(&self) -> (r: bool)
        requires
            self.wf(),
        ensures
            r == (self.error_map().dom().len() > 0),
    {
        self.errors.len() > 0
    }

    /// The error recorded for `target`.
    pub fn error_for(&self, target: &ErrorTarget) -> (r: Option<GraphError>)
        requires
            self.wf(),
        ensures
            match r {
                Some(e) => self.error_map().dom().contains(*target) && e@ == self.error_map()[*target]@,
                None => !self.error_map().dom().contains(*target),
            },
    {
        match self.errors.get(target) {
            Some(e) => Some(e.clone()),
            None => None,
        }
    }

    /// Records `error` under its target, replacing what was there.
    pub fn add_error(&mut self, error: GraphError)
        requires
            old(self).wf(),
        ensures
            final(self).wf(),
            final(self).error_map() == old(self).error_map().insert(error.target, error),
            final(self).st() == old(self).st(),
            final(self).subgraph_map() == old(self).subgraph_map(),
            final(self).removed_ids() == old(self).removed_ids(),
    {
        self.errors.insert(error.target, error);
    }

    /// Forgets the error recorded for `target`.
    pub fn clear_error(&mut self, target: &ErrorTarget)
        requires
            old(self).wf(),
        ensures
            final(self).wf(),
            final(self).error_map() == old(self).error_map().remove(*target),
            final(self).st() == old(self).st(),
            final(self).subgraph_map() == old(self).subgraph_map(),
            final(self).removed_ids() == old(self).removed_ids(),
    {
        self.errors.remove(target);
    }

    /// Forgets every error.
    pub fn clear_all_errors(&mut self)
        requires
            old(self).wf(),
        ensures
            final(self).wf(),
            final(self).error_map() == Map::<ErrorTarget, GraphError>::empty(),
            final(self).st() == old(self).st(),
            final(self).subgraph_map() == old(self).subgraph_map(),
            final(self).removed_ids() == old(self).removed_ids(),
    {
        self.errors = AssocMap::new();
    }

    /// Forgets the execution errors and keeps every other one.
    pub fn clear_execution_errors(&mut self)
        requires
            old(self).wf(),
        ensures
            final(self).wf(),
            forall|t: ErrorTarget| #[trigger] final(self).error_map().dom().contains(t) <==> (
                old(self).error_map().dom().contains(t) && !(old(self).error_map()[t].kind@ is Execution)),
            forall|t: ErrorTarget| #[trigger] final(self).error_map().dom().contains(t) ==> final(self).error_map()[t]
                == old(self).error_map()[t],
            final(self).st() == old(self).st(),
            final(self).subgraph_map() == old(self).subgraph_map(),
            final(self).removed_ids() == old(self).removed_ids(),
    {
        let keys = self.errors.keys();
        let ghost om = old(self).error_map();
        proof {
            self.errors.lemma_entries();
        }
        proof {
            assert forall|t: ErrorTarget| om.dom().contains(t) implies exists|j: int| 0 <= j < keys@.len() && #[trigger] keys@[j]@ == t by {
                let j = choose|j: int| 0 <= j < old(self).errors.spec_len() && #[trigger] old(self).errors.key_at(j) == t;
                assert(keys@[j]@ == t);
            }
        }
        let mut i: usize = 0;
        while i < keys.len()
            invariant
                self.wf(),
                om == old(self).error_map(),
                i <= keys@.len(),
                keys@.len() == old(self).errors.spec_len(),
                forall|j: int| 0 <= j < keys@.len() ==> (#[trigger] keys@[j])@ == old(self).errors.key_at(j),
                forall|t: ErrorTarget| om.dom().contains(t) ==> exists|j: int| 0 <= j < keys@.len() && #[trigger] keys@[j]@ == t,
                forall|t: ErrorTarget| #[trigger] self.error_map().dom().contains(t) <==> (om.dom().contains(t) && !(
                    (exists|j: int| 0 <= j < i && #[trigger] keys@[j]@ == t) && om[t].kind@ is Execution)),
                forall|t: ErrorTarget| #[trigger] self.error_map().dom().contains(t) ==> self.error_map()[t] == om[t],
                self.states == old(self).states,
                self.subgraphs == old(self).subgraphs,
                self.removed == old(self).removed,
            decreases keys@.len() - i,
        {
            let k = keys[i];
            let ghost prev = self.error_map();
            let exec = match self.errors.get(&k) {
                Some(e) => e.is_execution_error(),
                None => false,
            };
            if exec {
                self.errors.remove(&k);
                assert(self.error_map() == prev.remove(k));
            }
            proof {
                assert forall|t: ErrorTarget| #[trigger] self.error_map().dom().contains(t) implies self.error_map()[t] == om[t] by {
                    assert(prev.dom().contains(t));
                }
                assert forall|t: ErrorTarget| #[trigger] self.error_map().dom().contains(t) <==> (om.dom().contains(t) && !(
                    (exists|j: int| 0 <= j < i + 1 && #[trigger] keys@[j]@ == t) && om[t].kind@ is Execution)) by {
                    if t == k {
                        assert(keys@[i as int]@ == t);
                        if prev.dom().contains(t) {
                            assert(prev[t] == om[t]);
                        }
                    } else {
                        if exists|j: int| 0 <= j < i + 1 && #[trigger] keys@[j]@ == t {
                            let j = choose|j: int| 0 <= j < i + 1 && #[trigger] keys@[j]@ == t;
                            assert(j != i);
                        }
                    }
                }
            }
            i = i + 1;
        }
    }

    /// Adds `id` to the removal record.
    fn record_removal(&mut self, id: NodeId)
        ensures
            final(self).removed_ids() == old(self).removed_ids().push(id@),
            final(self).states == old(self).states,
            final(self).subgraphs == old(self).subgraphs,
            final(self).errors == old(self).errors,
    {
        let ghost before = self.removed@;
        self.removed.push(id);
        assert(key_seq(self.removed@) =~= key_seq(before).push(id@));
    }

    /// Takes the removal record, leaving it empty.
    pub fn take_removed(&mut self) -> (r: Vec<NodeId>)
        ensures
            key_seq(r@) == old(self).removed_ids(),
            final(self).removed_ids() == Seq::<u128>::empty(),
            final(self).st() == old(self).st(),
            final(self).subgraph_map() == old(self).subgraph_map(),
            final(self).error_map() == old(self).error_map(),
            final(self).wf() == old(self).wf(),
    {
        let mut r: Vec<NodeId> = Vec::new();
        std::mem::swap(&mut r, &mut self.removed);
        assert(key_seq(self.removed@) =~= Seq::<u128>::empty());
        r
    }

    /// Clears the changed set.
    pub fn drain_changed(&mut self)
        requires
            old(self).wf(),
        ensures
            final(self).wf(),
            final(self).st().changed() == Set::<Seq<u128>>::empty(),
            final(self).st().node_map() == old(self).st().node_map(),
            final(self).st().edge_map() == old(self).st().edge_map(),
            final(self).st().same_slots(&old(self).st()),
            final(self).st().same_edge_indexes(&old(self).st()),
            final(self).st().same_children(&old(self).st()),
            final(self).st().generation() == old(self).st().generation(),
            final(self).subgraph_map() == old(self).subgraph_map(),
            final(self).error_map() == old(self).error_map(),
            final(self).removed_ids() == old(self).removed_ids(),
    {
        self.states.drain_changed_nodes();
    }

    /// Marks every path of `paths` changed.
    pub fn restore_changed(&mut self, paths: &Vec<NodePath>)
        requires
            old(self).wf(),
        ensures
            final(self).wf(),
            final(self).st().changed() == old(self).st().changed() + key_seq(paths@).to_set(),
            final(self).st().node_map() == old(self).st().node_map(),
            final(self).st().edge_map() == old(self).st().edge_map(),
            final(self).st().same_slots(&old(self).st()),
            final(self).st().same_edge_indexes(&old(self).st()),
            final(self).st().same_children(&old(self).st()),
            final(self).st().generation() == old(self).st().generation(),
            final(self).subgraph_map() == old(self).subgraph_map(),
            final(self).error_map() == old(self).error_map(),
            final(self).removed_ids() == old(self).removed_ids(),
    {
        self.states.restore_changed_nodes(paths);
    }

    /// Marks every node changed, forcing a full pass.
    pub fn mark_all_nodes_dirty(&mut self)
        requires
            old(self).wf(),
        ensures
            final(self).wf(),
            final(self).st().changed() == old(self).st().changed() + Set::new(
                |p: Seq<u128>| old(self).st().node_map().dom().contains(p) && old(self).st().descends(Seq::<u128>::empty(), p),
            ),
            final(self).st().node_map() == old(self).st().node_map(),
            final(self).st().edge_map() == old(self).st().edge_map(),
            final(self).st().same_slots(&old(self).st()),
            final(self).st().same_edge_indexes(&old(self).st()),
            final(self).st().same_children(&old(self).st()),
            final(self).st().generation() == old(self).st().generation(),
            final(self).subgraph_map() == old(self).subgraph_map(),
            final(self).error_map() == old(self).error_map(),
            final(self).removed_ids() == old(self).removed_ids(),
    {
        self.states.mark_all_changed();
    }

    // === Node placement ===

    /// Places a node with the given record and slot definitions at `path`.
    /// Refused, with nothing changed, when a node is already there.
    pub fn add_node_at(
        &mut self,
        path: &NodePath,
        type_label: &'static str,
        type_id: Option<std::any::TypeId>,
        default_data: Option<NodeData<D>>,
        input_defs: &[SlotDef],
        output_defs: &[SlotDef],
    ) -> (r: Result<(), String>)
        requires
            old(self).wf(),
        ensures
            final(self).wf(),
            r is Err <==> old(self).st().node_map().dom().contains(path@),
            match r {
                Ok(_) => {
                    &&& final(self).st().node_added(
                        &old(self).st(),
                        path@,
                        NodeState { type_label, rust_type_id: type_id, data: default_data },
                        input_defs@,
                        output_defs@,
                    )
                    &&& final(self).subgraph_map() == old(self).subgraph_map()
                    &&& final(self).error_map() == old(self).error_map()
                    &&& final(self).removed_ids() == old(self).removed_ids()
                },
                Err(msg) => msg@ == already_registered_text(path@) && *final(self) == *old(self),
            },
    {
        if self.states.get(path).is_some() {
            let mut msg = String::from_str("add_node_at_locked: path ");
            let p = path.display_string();
            msg.append(p.as_str());
            msg.append(" already registered");
            return Err(msg);
        }
        self.states.add_node(path, type_label, type_id, default_data, input_defs, output_defs);
        Ok(())
    }

    /// The outcome of placing a SubGraph with id `sg_id` under `parent`,
    /// labelled `label`, leaving `next` and answering `r`.
    pub open spec fn subgraph_added(&self, next: &Self, parent: Seq<u128>, sg_id: NodeId, label: Seq<char>,
        r: Result<NodeId, String>) -> bool {
        &&& self.st().node_map().dom().contains(parent.push(sg_id@)) ==> r is Err
        &&& match r {
            Ok(id) => {
                let sg = parent.push(sg_id@);
                &&& id == sg_id
                &&& next.subgraph_map().dom() == self.subgraph_map().dom().insert(sg)
                &&& forall|q: Seq<u128>| q != sg ==> #[trigger] next.subgraph_map().dom().contains(q)
                    ==> next.subgraph_map()[q] == self.subgraph_map()[q]
                &&& {
                    let b = next.subgraph_map()[sg];
                    let i = b.input_proxy_id@;
                    let o = b.output_proxy_id@;
                    &&& b.label_text() == label
                    &&& b.template() is None
                    &&& !self.st().node_map().dom().contains(sg)
                    &&& !self.st().node_map().dom().contains(sg.push(i))
                    &&& !self.st().node_map().dom().contains(sg.push(o))
                    &&& i != o
                    &&& next.st().node_map().dom() == self.st().node_map().dom().insert(sg).insert(sg.push(i)).insert(sg.push(o))
                    &&& forall|q: Seq<u128>| q != sg && q != sg.push(i) && q != sg.push(o) ==>
                        #[trigger] next.st().node_map()[q] == self.st().node_map()[q]
                    &&& next.st().node_map()[sg].type_label@ == subgraph_name()
                    &&& next.st().node_map()[sg].rust_type_id is Some
                    &&& next.st().node_map()[sg].data is None
                    &&& proxy_record(next.st().node_map()[sg.push(i)], InterfaceDirection::Input)
                    &&& proxy_record(next.st().node_map()[sg.push(o)], InterfaceDirection::Output)
                    &&& next.st().same_slots(&self.st())
                    &&& next.st().edge_map() == self.st().edge_map()
                    &&& next.st().same_edge_indexes(&self.st())
                    &&& next.st().changed() == self.st().changed().insert(sg).insert(sg.push(i)).insert(sg.push(o))
                    &&& forall|q: Seq<u128>| #[trigger] next.st().children(q) == if q == parent {
                        recorded(self.st().children(q), sg_id@)
                    } else if q == sg {
                        recorded(recorded(self.st().children(q), i), o)
                    } else {
                        self.st().children(q)
                    }
                    &&& next.st().generation() == NodeStates::<D, V>::bumped(
                        NodeStates::<D, V>::bumped(NodeStates::<D, V>::bumped(self.st().generation())),
                    )
                }
                &&& next.error_map() == self.error_map()
                &&& next.removed_ids() == self.removed_ids()
            },
            Err(msg) => msg@ == collision_text(parent) && *next == *self,
        }
    }

    /// The outcome of placing a SubGraph `sg_id` under `parent` with the
    /// proxy ids `in_id` and `out_id`: refused exactly when one of the
    /// three paths is taken or the two proxy ids coincide; otherwise placed
    /// with those proxies.
    pub open spec fn subgraph_placed(&self, next: &Self, parent: Seq<u128>, sg_id: NodeId, in_id: NodeId, out_id: NodeId,
        label: Seq<char>, r: Result<NodeId, String>) -> bool {
        let sg = parent.push(sg_id@);
        let st = self.st();
        &&& r is Err <==> (st.node_map().dom().contains(sg) || st.node_map().dom().contains(sg.push(in_id@))
            || st.node_map().dom().contains(sg.push(out_id@)) || in_id == out_id)
        &&& self.subgraph_added(next, parent, sg_id, label, r)
        &&& r is Ok ==> next.subgraph_map()[sg].input_proxy_id == in_id && next.subgraph_map()[sg].output_proxy_id == out_id
    }

    /// Places a SubGraph with id `sg_id` under `parent_path`, labelled
    /// `label`, with its two interface proxies under `in_id` and `out_id`:
    /// the input proxy faces inward, the output proxy outward. Refused,
    /// with nothing changed, when any of the three paths is taken or the
    /// proxy ids coincide.
    pub fn place_subgraph(&mut self, parent_path: &NodePath, sg_id: NodeId, in_id: NodeId, out_id: NodeId, label: String)
        -> (r: Result<NodeId, String>)
        requires
            old(self).wf(),
        ensures
            final(self).wf(),
            old(self).subgraph_placed(&*final(self), parent_path@, sg_id, in_id, out_id, label@, r),
    {
        let sg_path = parent_path.child(sg_id);
        let in_path = sg_path.child(in_id);
        let out_path = sg_path.child(out_id);
        if self.states.get(&sg_path).is_some() || self.states.get(&in_path).is_some()
            || self.states.get(&out_path).is_some() || in_id.0 == out_id.0 {
            let mut msg = String::from_str("add_subgraph_at_with_id: path collision under ");
            let p = parent_path.display_string();
            msg.append(p.as_str());
            return Err(msg);
        }
        let ghost s0 = self.states;
        let empty: Vec<SlotDef> = Vec::new();
        self.states.add_node(&sg_path, "SubGraph", Some(subgraph_type_id()), None, empty.as_slice(), empty.as_slice());
        let ghost s1 = self.states;
        let in_data = NodeData::Interface(InterfaceNodeData { direction: InterfaceDirection::Input, locked: Vec::new() });
        self.states.add_node(&in_path, "InterfaceNode", Some(interface_type_id()), Some(in_data), empty.as_slice(), empty.as_slice());
        let ghost s2 = self.states;
        let out_data = NodeData::Interface(InterfaceNodeData { direction: InterfaceDirection::Output, locked: Vec::new() });
        self.states.add_node(&out_path, "InterfaceNode", Some(interface_type_id()), Some(out_data), empty.as_slice(), empty.as_slice());
        let ghost s3 = self.states;
        self.subgraphs.insert(sg_path, SubGraphNode::with_proxies(in_id, out_id, label));
        proof {
            let sg = parent_path@.push(sg_id@);
            assert(sg.push(in_id@).drop_last() == sg);
            assert(sg.push(out_id@).drop_last() == sg);
            assert(sg.drop_last() == parent_path@);
            assert(sg.len() > 0 && sg.last() == sg_id@);
            assert(sg != parent_path@);
            assert(sg.push(in_id@) != parent_path@) by {
                assert(sg.push(in_id@).len() != parent_path@.len());
            }
            assert(sg.push(out_id@) != parent_path@) by {
                assert(sg.push(out_id@).len() != parent_path@.len());
            }
            assert(sg.push(in_id@) != sg.push(out_id@)) by {
                assert(sg.push(in_id@).last() != sg.push(out_id@).last());
            }
            assert(s3.node_map().dom() =~= s0.node_map().dom().insert(sg).insert(sg.push(in_id@)).insert(sg.push(out_id@)));
            assert(s3.changed() =~= s0.changed().insert(sg).insert(sg.push(in_id@)).insert(sg.push(out_id@)));
            assert forall|q: Seq<u128>| #[trigger] s3.inputs(q) == s0.inputs(q) by {
                if q == sg.push(out_id@) {
                    assert(s3.inputs(q) =~= s2.inputs(q));
                }
                if q == sg.push(in_id@) {
                    assert(s2.inputs(q) =~= s1.inputs(q));
                }
                if q == sg {
                    assert(s1.inputs(q) =~= s0.inputs(q));
                }
            }
            assert forall|q: Seq<u128>| #[trigger] s3.outputs(q) == s0.outputs(q) by {
                if q == sg.push(out_id@) {
                    assert(s3.outputs(q) =~= s2.outputs(q));
                }
                if q == sg.push(in_id@) {
                    assert(s2.outputs(q) =~= s1.outputs(q));
                }
                if q == sg {
                    assert(s1.outputs(q) =~= s0.outputs(q));
                }
            }
        }
        Ok(sg_id)
    }

    /// Places a SubGraph with id `sg_id` under `parent_path`, labelled
    /// `label`, with its two interface proxies under fresh ids, as
    /// `place_subgraph` does with the ids drawn.
    pub fn add_subgraph_at_with_id(&mut self, parent_path: &NodePath, sg_id: NodeId, label: String) -> (r:
        Result<NodeId, String>)
        requires
            old(self).wf(),
        ensures
            final(self).wf(),
            exists|in_id: NodeId, out_id: NodeId| #[trigger] old(self).subgraph_placed(&*final(self), parent_path@, sg_id, in_id, out_id, label@, r),
    {
        let in_id = NodeId::new();
        let out_id = NodeId::new();
        let r = self.place_subgraph(parent_path, sg_id, in_id, out_id, label);
        r
    }

    /// Places a SubGraph under a fresh id below `parent_path`, as
    /// `add_subgraph_at_with_id` does.
    pub fn add_subgraph_at(&mut self, parent_path: &NodePath, label: String) -> (r: Result<NodeId, String>)
        requires
            old(self).wf(),
        ensures
            final(self).wf(),
            exists|id: NodeId, in_id: NodeId, out_id: NodeId| #[trigger] old(self).subgraph_placed(&*final(self), parent_path@, id, in_id, out_id, label@, r),
    {
        let id = NodeId::new();
        let r = self.add_subgraph_at_with_id(parent_path, id, label);
        r
    }

    // === SubGraph queries ===

    /// The `(input, output)` proxy ids of the SubGraph at `path`.
    pub fn subgraph_proxy_ids_at_path(&self, path: &NodePath) -> (r: Option<(NodeId, NodeId)>)
        requires
            self.wf(),
        ensures
            match r {
                Some((i, o)) => self.subgraph_map().dom().contains(path@) && i == self.subgraph_map()[path@].input_proxy_id
                    && o == self.subgraph_map()[path@].output_proxy_id,
                None => !self.subgraph_map().dom().contains(path@),
            },
    {
        match self.subgraphs.get(path) {
            Some(sg) => Some((sg.input_proxy_id, sg.output_proxy_id)),
            None => None,
        }
    }

    /// Whether a SubGraph sits at `path`.
    pub fn is_subgraph_node_at_path(&self, path: &NodePath) -> (r: bool)
        requires
            self.wf(),
        ensures
            r == self.subgraph_map().dom().contains(path@),
    {
        self.subgraphs.contains_key(path)
    }

    /// The proxies of the root-level SubGraph `node_id`.
    pub fn subgraph_proxy_ids(&self, node_id: &NodeId) -> (r: Option<(NodeId, NodeId)>)
        requires
            self.wf(),
        ensures
            match r {
                Some((i, o)) => self.subgraph_map().dom().contains(seq![node_id@]) && i == self.subgraph_map()[seq![node_id@]].input_proxy_id
                    && o == self.subgraph_map()[seq![node_id@]].output_proxy_id,
                None => !self.subgraph_map().dom().contains(seq![node_id@]),
            },
    {
        let p = NodePath::root().child(*node_id);
        assert(p@ =~= seq![node_id@]);
        self.subgraph_proxy_ids_at_path(&p)
    }

    /// Whether the root-level node `node_id` is a SubGraph.
    pub fn is_subgraph_node(&self, node_id: &NodeId) -> (r: bool)
        requires
            self.wf(),
        ensures
            r == self.subgraph_map().dom().contains(seq![node_id@]),
    {
        let p = NodePath::root().child(*node_id);
        assert(p@ =~= seq![node_id@]);
        self.subgraphs.contains_key(&p)
    }

    /// The label of the root-level SubGraph `node_id`.
    pub fn subgraph_label(&self, node_id: &NodeId) -> (r: Option<String>)
        requires
            self.wf(),
        ensures
            match r {
                Some(l) => self.subgraph_map().dom().contains(seq![node_id@]) && l@ == self.subgraph_map()[seq![node_id@]].label_text(),
                None => !self.subgraph_map().dom().contains(seq![node_id@]),
            },
    {
        let p = NodePath::root().child(*node_id);
        assert(p@ =~= seq![node_id@]);
        match self.subgraphs.get(&p) {
            Some(sg) => Some(String::from_str(sg.label())),
            None => None,
        }
    }

    /// Relabels the root-level SubGraph `node_id`; `false` when there is
    /// none.
    pub fn set_subgraph_label(&mut self, node_id: &NodeId, label: &str) -> (r: bool)
        requires
            old(self).wf(),
        ensures
            final(self).wf(),
            r == old(self).subgraph_map().dom().contains(seq![node_id@]),
            r ==> {
                let b = final(self).subgraph_map()[seq![node_id@]];
                let a = old(self).subgraph_map()[seq![node_id@]];
                &&& final(self).subgraph_map().dom() == old(self).subgraph_map().dom()
                &&& forall|q: Seq<u128>| q != seq![node_id@] ==> #[trigger] final(self).subgraph_map()[q] == old(self).subgraph_map()[q]
                &&& b.label_text() == label@
                &&& b.input_proxy_id == a.input_proxy_id
                &&& b.output_proxy_id == a.output_proxy_id
                &&& b.template() == a.template()
            },
            !r ==> *final(self) == *old(self),
            final(self).st() == old(self).st(),
            final(self).error_map() == old(self).error_map(),
            final(self).removed_ids() == old(self).removed_ids(),
    {
        let p = NodePath::root().child(*node_id);
        assert(p@ =~= seq![node_id@]);
        if !self.subgraphs.contains_key(&p) {
            return false;
        }
        match self.subgraphs.remove(&p) {
            None => false,
            Some(mut sg) => {
                sg.set_label(String::from_str(label));
                self.subgraphs.insert(p, sg);
                proof {
                    assert(self.subgraph_map().dom() =~= old(self).subgraph_map().dom());
                }
                true
            },
        }
    }

    /// Sets the template type of the root-level SubGraph `node_id`.
    pub fn set_subgraph_template_type_id(&mut self, node_id: &NodeId, type_id: std::any::TypeId) -> (r: Result<(), String>)
        requires
            old(self).wf(),
        ensures
            final(self).wf(),
            r is Ok == old(self).subgraph_map().dom().contains(seq![node_id@]),
            r is Ok ==> {
                let b = final(self).subgraph_map()[seq![node_id@]];
                let a = old(self).subgraph_map()[seq![node_id@]];
                &&& final(self).subgraph_map().dom() == old(self).subgraph_map().dom()
                &&& forall|q: Seq<u128>| q != seq![node_id@] ==> #[trigger] final(self).subgraph_map()[q] == old(self).subgraph_map()[q]
                &&& b.template() == Some(type_id)
                &&& b.label_text() == a.label_text()
                &&& b.input_proxy_id == a.input_proxy_id
                &&& b.output_proxy_id == a.output_proxy_id
            },
            r is Err ==> *final(self) == *old(self),
            final(self).st() == old(self).st(),
            final(self).error_map() == old(self).error_map(),
            final(self).removed_ids() == old(self).removed_ids(),
    {
        let p = NodePath::root().child(*node_id);
        assert(p@ =~= seq![node_id@]);
        if !self.subgraphs.contains_key(&p) {
            if self.states.get(&p).is_none() {
                return Err(node_id_not_found_message(node_id));
            }
            return Err(String::from_str("Node is not a SubGraphNode"));
        }
        match self.subgraphs.remove(&p) {
            None => Err(String::from_str("Node is not a SubGraphNode")),
            Some(mut sg) => {
                sg.set_template_type_id(type_id);
                self.subgraphs.insert(p, sg);
                proof {
                    assert(self.subgraph_map().dom() =~= old(self).subgraph_map().dom());
                }
                Ok(())
            },
        }
    }

    /// The template type of the root-level SubGraph `node_id`.
    pub fn subgraph_template_type_id(&self, node_id: &NodeId) -> (r: Option<std::any::TypeId>)
        requires
            self.wf(),
        ensures
            r == if self.subgraph_map().dom().contains(seq![node_id@]) {
                self.subgraph_map()[seq![node_id@]].template()
            } else {
                None
            },
    {
        let p = NodePath::root().child(*node_id);
        assert(p@ =~= seq![node_id@]);
        match self.subgraphs.get(&p) {
            Some(sg) => sg.template_type_id(),
            None => None,
        }
    }

    // === Edges ===

    /// An edge into a SubGraph, taken through to the matching input slot
    /// of its input proxy; `None` when the proxy lacks that slot.
    pub open spec fn route_target(&self, e: EdgeShape) -> Option<EdgeShape> {
        if self.subgraph_map().dom().contains(e.to_node) {
            let proxy = e.to_node.push(self.subgraph_map()[e.to_node].input_proxy_id@);
            if e.to_input_slot_index < self.st().inputs(proxy).len() {
                Some(EdgeShape {
                    to_node: proxy,
                    to_input_slot_id: self.st().inputs(proxy)[e.to_input_slot_index as int].id@,
                    ..e
                })
            } else {
                None
            }
        } else {
            Some(e)
        }
    }

    /// An edge out of a SubGraph, taken through to the matching output
    /// slot of its output proxy; `None` when the proxy lacks that slot.
    pub open spec fn route_source(&self, e: EdgeShape) -> Option<EdgeShape> {
        if self.subgraph_map().dom().contains(e.from_node) {
            let proxy = e.from_node.push(self.subgraph_map()[e.from_node].output_proxy_id@);
            if e.from_output_slot_index < self.st().outputs(proxy).len() {
                Some(EdgeShape {
                    from_node: proxy,
                    from_output_slot_id: self.st().outputs(proxy)[e.from_output_slot_index as int].id@,
                    ..e
                })
            } else {
                None
            }
        } else {
            Some(e)
        }
    }

    /// The first check a routed edge fails, as the error recorded for it:
    /// a missing node, a missing slot, a type mismatch, or a full input.
    pub open spec fn edge_check(&self, e: EdgeShape) -> Option<(ErrorTarget, KindView)> {
        let from_id = NodeId(e.from_node.last());
        let to_id = NodeId(e.to_node.last());
        let port = ErrorTarget::InputPort { node_id: to_id, slot_index: e.to_input_slot_index };
        if !self.st().node_map().dom().contains(e.from_node) {
            Some((ErrorTarget::Node(from_id), KindView::NodeNotFound))
        } else if !self.st().node_map().dom().contains(e.to_node) {
            Some((ErrorTarget::Node(to_id), KindView::NodeNotFound))
        } else if e.from_output_slot_index >= self.st().outputs(e.from_node).len() {
            Some((
                ErrorTarget::OutputPort { node_id: from_id, slot_index: e.from_output_slot_index },
                KindView::SlotNotFound,
            ))
        } else if e.to_input_slot_index >= self.st().inputs(e.to_node).len() {
            Some((port, KindView::SlotNotFound))
        } else {
            let from_type = self.st().outputs(e.from_node)[e.from_output_slot_index as int].data_type;
            let slot = self.st().inputs(e.to_node)[e.to_input_slot_index as int];
            if !crate::data_type::same_type(from_type, slot.data_type) {
                Some((port, KindView::TypeMismatch { from_type, to_type: slot.data_type }))
            } else if slot.max_connections is Some && self.st().input_edges(slot.id@).len() >= slot.max_connections->0 {
                Some((port, KindView::ConnectionLimitExceeded { max: slot.max_connections->0 }))
            } else {
                None
            }
        }
    }

    /// Adds `edge` after routing SubGraph endpoints to their proxies and
    /// checking it. Each refusal by a check records its error (after
    /// clearing the target input port's previous error) and returns its
    /// message; the other refusals change nothing. On success the edge
    /// is stored under a fresh id.
    pub fn add_edge(&mut self, edge: Edge) -> (r: Result<EdgeId, String>)
        requires
            old(self).wf(),
        ensures
            final(self).wf(),
            final(self).subgraph_map() == old(self).subgraph_map(),
            final(self).removed_ids() == old(self).removed_ids(),
            old(self).added_as_edge(&*final(self), edge@, r),
    {
        let edge_id = EdgeId::new();
        let r = self.add_edge_with_id(edge, edge_id);
        r
    }

    /// Adds `edge` as `add_edge` does, under the id `edge_id`; once every
    /// check has passed, refused when an edge is already stored under that
    /// id.
    pub fn add_edge_with_id(&mut self, edge: Edge, edge_id: EdgeId) -> (r: Result<EdgeId, String>)
        requires
            old(self).wf(),
        ensures
            final(self).wf(),
            final(self).subgraph_map() == old(self).subgraph_map(),
            final(self).removed_ids() == old(self).removed_ids(),
            old(self).added_as_edge_with(&*final(self), edge@, edge_id, r),
    {
        let mut edge = edge;
        let ghost e0 = edge@;
        match self.subgraphs.get(&edge.to_node) {
            Some(sg) => {
                let proxy = edge.to_node.child(sg.input_proxy_id);
                match self.states.input_slot(&proxy, edge.to_input_slot_index) {
                    None => {
                        let mut msg = String::from_str("add_edge: InputProxy at ");
                        let p = proxy.display_string();
                        msg.append(p.as_str());
                        msg.append(" has no input slot ");
                        let d = decimal_string(edge.to_input_slot_index as u128);
                        msg.append(d.as_str());
                        msg.append(" (SubGraph external slot exists but the proxy is missing it \u{2014} schema mismatch)");
                        return Err(msg);
                    },
                    Some(slot) => {
                        edge.to_input_slot_id = slot.id;
                        edge.to_node = proxy;
                    },
                }
            },
            None => {},
        }
        let ghost e1 = edge@;
        assert(old(self).route_target(e0) == Some(e1));
        match self.subgraphs.get(&edge.from_node) {
            Some(sg) => {
                let proxy = edge.from_node.child(sg.output_proxy_id);
                match self.states.output_slot(&proxy, edge.from_output_slot_index) {
                    None => {
                        let mut msg = String::from_str("add_edge: OutputProxy at ");
                        let p = proxy.display_string();
                        msg.append(p.as_str());
                        msg.append(" has no output slot ");
                        let d = decimal_string(edge.from_output_slot_index as u128);
                        msg.append(d.as_str());
                        msg.append(" (SubGraph external slot exists but the proxy is missing it \u{2014} schema mismatch)");
                        return Err(msg);
                    },
                    Some(slot) => {
                        edge.from_output_slot_id = slot.id;
                        edge.from_node = proxy;
                    },
                }
            },
            None => {},
        }
        let ghost e2 = edge@;
        assert(old(self).route_source(e1) == Some(e2));
        let from_id = match edge.from_node.leaf() {
            None => {
                return Err(String::from_str("add_edge: from_node is a root path"));
            },
            Some(x) => x,
        };
        let to_id = match edge.to_node.leaf() {
            None => {
                return Err(String::from_str("add_edge: to_node is a root path"));
            },
            Some(x) => x,
        };
        let input_target = ErrorTarget::InputPort { node_id: to_id, slot_index: edge.to_input_slot_index };
        self.errors.remove(&input_target);
        if self.states.get(&edge.from_node).is_none() {
            let error = GraphError::node_not_found(from_id);
            return self.refuse(error);
        }
        if self.states.get(&edge.to_node).is_none() {
            let error = GraphError::node_not_found(to_id);
            return self.refuse(error);
        }
        let from_type = match self.states.output_slot(&edge.from_node, edge.from_output_slot_index) {
            None => {
                let error = GraphError::output_slot_not_found(from_id, edge.from_output_slot_index);
                return self.refuse(error);
            },
            Some(slot) => slot.data_type,
        };
        let (to_type, to_max, to_sid) = match self.states.input_slot(&edge.to_node, edge.to_input_slot_index) {
            None => {
                let error = GraphError::input_slot_not_found(to_id, edge.to_input_slot_index);
                return self.refuse(error);
            },
            Some(slot) => (slot.data_type, slot.max_connections, slot.id),
        };
        if from_type != to_type {
            let error = GraphError::type_mismatch(to_id, edge.to_input_slot_index, from_type, to_type);
            return self.refuse(error);
        }
        match to_max {
            Some(max) => {
                let current = self.states.edges_for_input(&to_sid).len();
                if current >= max {
                    let error = GraphError::connection_limit_exceeded(to_id, edge.to_input_slot_index, max);
                    return self.refuse(error);
                }
            },
            None => {},
        }
        if self.states.get_edge(&edge_id).is_some() {
            return Err(String::from_str("add_edge: edge id already in use"));
        }
        self.states.add_edge(edge_id, edge);
        Ok(edge_id)
    }

    /// Records `error` and returns its message.
    fn refuse(&mut self, error: GraphError) -> (r: Result<EdgeId, String>)
        requires
            old(self).wf(),
        ensures
            final(self).wf(),
            r matches Err(m) && m@ == message_text(error.kind@),
            final(self).error_map() == old(self).error_map().insert(error.target, error),
            final(self).st() == old(self).st(),
            final(self).subgraph_map() == old(self).subgraph_map(),
            final(self).removed_ids() == old(self).removed_ids(),
    {
        let msg = error.message();
        self.errors.insert(error.target, error);
        Err(msg)
    }


    /// The edge from output `from_output_slot_index` of the node at
    /// `from_path` to input `to_input_slot_index` of the node at
    /// `to_path`, with the current ids of both slots; not added.
    pub fn create_edge_at(
        &self,
        from_path: &NodePath,
        from_output_slot_index: usize,
        to_path: &NodePath,
        to_input_slot_index: usize,
    ) -> (r: Result<Edge, &'static str>)
        requires
            self.wf(),
        ensures
            match r {
                Ok(e) => {
                    &&& from_output_slot_index < self.st().outputs(from_path@).len()
                    &&& to_input_slot_index < self.st().inputs(to_path@).len()
                    &&& e@ == (EdgeShape {
                        from_node: from_path@,
                        from_output_slot_index,
                        from_output_slot_id: self.st().outputs(from_path@)[from_output_slot_index as int].id@,
                        to_node: to_path@,
                        to_input_slot_index,
                        to_input_slot_id: self.st().inputs(to_path@)[to_input_slot_index as int].id@,
                    })
                },
                Err(m) => if from_output_slot_index >= self.st().outputs(from_path@).len() {
                    m@ == "Invalid output slot index"@
                } else {
                    to_input_slot_index >= self.st().inputs(to_path@).len() && m@ == "Invalid input slot index"@
                },
            },
    {
        let from_output_slot_id = match self.states.output_slot(from_path, from_output_slot_index) {
            None => {
                return Err("Invalid output slot index");
            },
            Some(s) => s.id,
        };
        let to_input_slot_id = match self.states.input_slot(to_path, to_input_slot_index) {
            None => {
                return Err("Invalid input slot index");
            },
            Some(s) => s.id,
        };
        Ok(Edge {
            from_node: from_path.clone(),
            from_output_slot_index,
            from_output_slot_id,
            to_node: to_path.clone(),
            to_input_slot_index,
            to_input_slot_id,
        })
    }

    /// Connects output `from_output_slot_index` of the node at `from_path`
    /// to input `to_input_slot_index` of the node at `to_path`: the edge
    /// is built as by `create_edge_at` and added as by `add_edge`.
    pub fn connect_nodes_at(
        &mut self,
        from_path: &NodePath,
        from_output_slot_index: usize,
        to_path: &NodePath,
        to_input_slot_index: usize,
    ) -> (r: Result<EdgeId, String>)
        requires
            old(self).wf(),
        ensures
            final(self).wf(),
            final(self).subgraph_map() == old(self).subgraph_map(),
            final(self).removed_ids() == old(self).removed_ids(),
            from_output_slot_index >= old(self).st().outputs(from_path@).len() ==> (r matches Err(m) && m@
                == "Invalid output slot index"@ && *final(self) == *old(self)),
            from_output_slot_index < old(self).st().outputs(from_path@).len() && to_input_slot_index >= old(
                self,
            ).st().inputs(to_path@).len() ==> (r matches Err(m) && m@ == "Invalid input slot index"@ && *final(self)
                == *old(self)),
            r is Ok ==> from_output_slot_index < old(self).st().outputs(from_path@).len() && to_input_slot_index < old(
                self,
            ).st().inputs(to_path@).len(),
            (from_output_slot_index < old(self).st().outputs(from_path@).len() && to_input_slot_index < old(
                self,
            ).st().inputs(to_path@).len()) ==> old(self).added_as_edge(
                &*final(self),
                EdgeShape {
                    from_node: from_path@,
                    from_output_slot_index,
                    from_output_slot_id: old(self).st().outputs(from_path@)[from_output_slot_index as int].id@,
                    to_node: to_path@,
                    to_input_slot_index,
                    to_input_slot_id: old(self).st().inputs(to_path@)[to_input_slot_index as int].id@,
                },
                r,
            ),
    {
        let edge = match self.create_edge_at(from_path, from_output_slot_index, to_path, to_input_slot_index) {
            Err(m) => {
                return Err(String::from_str(m));
            },
            Ok(e) => e,
        };
        self.add_edge(edge)
    }

    /// What `add_edge` makes of `self` for an edge of shape `shape`,
    /// leaving `next` and answering `r`, with some id drawn for the edge.
    pub open spec fn added_as_edge(&self, next: &Self, shape: EdgeShape, r: Result<EdgeId, String>) -> bool {
        exists|id: EdgeId| #[trigger] self.added_as_edge_with(next, shape, id, r)
    }

    /// What `add_edge_with_id` makes of `self` for an edge of shape `shape`
    /// and the id `id`, leaving `next` and answering `r`.
    pub open spec fn added_as_edge_with(&self, next: &Self, shape: EdgeShape, id: EdgeId, r: Result<EdgeId, String>) -> bool {
        let e1 = self.route_target(shape);
        if e1 is None {
            &&& r matches Err(m) && m@ == input_proxy_missing_text(
                shape.to_node.push(self.subgraph_map()[shape.to_node].input_proxy_id@),
                shape.to_input_slot_index,
            )
            &&& *next == *self
        } else {
            let e2 = self.route_source(e1->0);
            if e2 is None {
                &&& r matches Err(m) && m@ == output_proxy_missing_text(
                    shape.from_node.push(self.subgraph_map()[shape.from_node].output_proxy_id@),
                    shape.from_output_slot_index,
                )
                &&& *next == *self
            } else {
                let e = e2->0;
                let port = ErrorTarget::InputPort { node_id: NodeId(e.to_node.last()), slot_index: e.to_input_slot_index };
                if e.from_node.len() == 0 {
                    r matches Err(m) && m@ == "add_edge: from_node is a root path"@ && *next == *self
                } else if e.to_node.len() == 0 {
                    r matches Err(m) && m@ == "add_edge: to_node is a root path"@ && *next == *self
                } else {
                    match self.edge_check(e) {
                        Some(err) => {
                            &&& r matches Err(m) && m@ == message_text(err.1)
                            &&& error_replaced(next.error_map(), self.error_map(), port, err)
                            &&& next.st() == self.st()
                        },
                        None => {
                            &&& if self.st().edge_map().dom().contains(id@) {
                                &&& r matches Err(m) && m@ == "add_edge: edge id already in use"@
                                &&& next.st() == self.st()
                            } else {
                                &&& r == Ok::<EdgeId, String>(id)
                                &&& next.st().edge_added(&self.st(), id@, next.st().edge_map()[id@])
                                &&& next.st().edge_map()[id@]@ == e
                            }
                            &&& next.error_map() == self.error_map().remove(port)
                        },
                    }
                }
            }
        }
    }

    /// Connects two root-level nodes, as `connect_nodes_at` does for
    /// their paths.
    pub fn connect_nodes(
        &mut self,
        from_node_id: &NodeId,
        from_output_slot_index: usize,
        to_node_id: &NodeId,
        to_input_slot_index: usize,
    ) -> (r: Result<EdgeId, String>)
        requires
            old(self).wf(),
        ensures
            final(self).wf(),
            final(self).subgraph_map() == old(self).subgraph_map(),
            final(self).removed_ids() == old(self).removed_ids(),
            from_output_slot_index >= old(self).st().outputs(seq![from_node_id@]).len() ==> (r matches Err(m) && m@
                == "Invalid output slot index"@ && *final(self) == *old(self)),
            from_output_slot_index < old(self).st().outputs(seq![from_node_id@]).len() && to_input_slot_index >= old(
                self,
            ).st().inputs(seq![to_node_id@]).len() ==> (r matches Err(m) && m@ == "Invalid input slot index"@
                && *final(self) == *old(self)),
            (from_output_slot_index < old(self).st().outputs(seq![from_node_id@]).len() && to_input_slot_index < old(
                self,
            ).st().inputs(seq![to_node_id@]).len()) ==> old(self).added_as_edge(
                &*final(self),
                EdgeShape {
                    from_node: seq![from_node_id@],
                    from_output_slot_index,
                    from_output_slot_id: old(self).st().outputs(seq![from_node_id@])[from_output_slot_index as int].id@,
                    to_node: seq![to_node_id@],
                    to_input_slot_index,
                    to_input_slot_id: old(self).st().inputs(seq![to_node_id@])[to_input_slot_index as int].id@,
                },
                r,
            ),
    {
        let from = NodePath::root().child(*from_node_id);
        let to = NodePath::root().child(*to_node_id);
        assert(from@ =~= seq![from_node_id@]);
        assert(to@ =~= seq![to_node_id@]);
        self.connect_nodes_at(&from, from_output_slot_index, &to, to_input_slot_index)
    }

    /// Removes the edge `edge_id`; an error naming it when there is none.
    pub fn remove_edge(&mut self, edge_id: EdgeId) -> (r: Result<(), String>)
        requires
            old(self).wf(),
        ensures
            final(self).wf(),
            r is Ok == old(self).st().edge_map().dom().contains(edge_id@),
            r is Ok ==> final(self).st().edge_removed(&old(self).st(), edge_id@),
            r matches Err(m) ==> m@ == "Edge does not exist: id: "@ + edge_id_debug_text(edge_id@),
            r is Err ==> *final(self) == *old(self),
            final(self).subgraph_map() == old(self).subgraph_map(),
            final(self).error_map() == old(self).error_map(),
            final(self).removed_ids() == old(self).removed_ids(),
    {
        match self.states.remove_edge(&edge_id) {
            Some(_) => Ok(()),
            None => {
                let mut s = String::from_str("Edge does not exist: id: EdgeId(Ulid(");
                let d = decimal_string(edge_id.0);
                s.append(d.as_str());
                s.append("))");
                proof {
                    reveal_strlit("Edge does not exist: id: EdgeId(Ulid(");
                    reveal_strlit("Edge does not exist: id: ");
                    reveal_strlit("EdgeId(Ulid(");
                    reveal_strlit("))");
                }
                assert(s@ =~= "Edge does not exist: id: "@ + edge_id_debug_text(edge_id@));
                Err(s)
            },
        }
    }

    /// Replaces the edge `edge_id` by `new_edge` under the same id, after
    /// checking that the new endpoints exist and carry the same type.
    pub fn update_edge(&mut self, edge_id: EdgeId, new_edge: Edge) -> (r: Result<(), &'static str>)
        requires
            old(self).wf(),
        ensures
            final(self).wf(),
            ({
                let st = old(self).st();
                let e = new_edge@;
                if !st.edge_map().dom().contains(edge_id@) {
                    r matches Err(m) && m@ == "Edge does not exist"@
                } else if !st.node_map().dom().contains(e.from_node) {
                    r matches Err(m) && m@ == "New from_node does not exist"@
                } else if !st.node_map().dom().contains(e.to_node) {
                    r matches Err(m) && m@ == "New to_node does not exist"@
                } else if e.from_output_slot_index >= st.outputs(e.from_node).len() {
                    r matches Err(m) && m@ == "New output slot does not exist"@
                } else if e.to_input_slot_index >= st.inputs(e.to_node).len() {
                    r matches Err(m) && m@ == "New input slot does not exist"@
                } else if !crate::data_type::same_type(
                    st.outputs(e.from_node)[e.from_output_slot_index as int].data_type,
                    st.inputs(e.to_node)[e.to_input_slot_index as int].data_type,
                ) {
                    r matches Err(m) && m@ == "Data type mismatch between new output and input slots"@
                } else {
                    &&& r is Ok
                    &&& exists|mid: NodeStates<D, V>| #[trigger] mid.edge_removed(&st, edge_id@) && final(self).st().edge_added(&mid, edge_id@, new_edge)
                }
            }),
            r is Err ==> *final(self) == *old(self),
            final(self).subgraph_map() == old(self).subgraph_map(),
            final(self).error_map() == old(self).error_map(),
            final(self).removed_ids() == old(self).removed_ids(),
    {
        if self.states.get_edge(&edge_id).is_none() {
            return Err("Edge does not exist");
        }
        if self.states.get(&new_edge.from_node).is_none() {
            return Err("New from_node does not exist");
        }
        if self.states.get(&new_edge.to_node).is_none() {
            return Err("New to_node does not exist");
        }
        let from_type = match self.states.output_slot(&new_edge.from_node, new_edge.from_output_slot_index) {
            None => {
                return Err("New output slot does not exist");
            },
            Some(s) => s.data_type,
        };
        let to_type = match self.states.input_slot(&new_edge.to_node, new_edge.to_input_slot_index) {
            None => {
                return Err("New input slot does not exist");
            },
            Some(s) => s.data_type,
        };
        if from_type != to_type {
            return Err("Data type mismatch between new output and input slots");
        }
        self.states.remove_edge(&edge_id);
        let ghost mid = self.states;
        self.states.add_edge(edge_id, new_edge);
        assert(mid.edge_removed(&old(self).st(), edge_id@));
        Ok(())
    }

    /// The edge with id `edge_id`.
    pub fn get_edge_by_id(&self, edge_id: &EdgeId) -> (r: Option<Edge>)
        requires
            self.wf(),
        ensures
            match r {
                Some(e) => self.st().edge_map().dom().contains(edge_id@) && e@ == self.st().edge_map()[edge_id@]@,
                None => !self.st().edge_map().dom().contains(edge_id@),
            },
    {
        match self.states.get_edge(edge_id) {
            Some(e) => Some(e.clone()),
            None => None,
        }
    }


    // === Node removal ===

    /// Removes the node at `path` and everything below it in the children
    /// index, with their edges and slot tables, and records the local id
    /// of each removed path for the next execution result.
    pub fn remove_node_at(&mut self, path: &NodePath) -> (r: Result<(), String>)
        requires
            old(self).wf(),
        ensures
            final(self).wf(),
            r is Ok,
            ({
                let sub = Set::new(|q: Seq<u128>| old(self).st().descends(path@, q));
                &&& final(self).st().nodes_removed(&old(self).st(), sub)
                &&& old(self).st().generation() < u64::MAX ==> old(self).st().generation() < final(self).st().generation()
                &&& final(self).subgraph_map() == old(self).subgraph_map().remove_keys(sub)
                &&& final(self).error_map() == old(self).error_map()
                &&& old(self).removed_ids().len() <= final(self).removed_ids().len()
                &&& final(self).removed_ids().subrange(0, old(self).removed_ids().len() as int) == old(self).removed_ids()
                &&& final(self).removed_ids().subrange(old(self).removed_ids().len() as int, final(self).removed_ids().len() as int).to_set()
                    == Set::new(|x: u128| exists|q: Seq<u128>| #[trigger] sub.contains(q) && q.len() > 0 && q.last() == x)
            }),
    {
        let all = self.states.subtree_paths(path);
        let ghost sub = Set::new(|q: Seq<u128>| old(self).st().descends(path@, q));
        let ghost st0 = self.states;
        let mut k: usize = all.len();
        proof {
            st0.lemma_nodes_removed_none();
            assert(key_seq(all@).subrange(k as int, all@.len() as int).to_set() =~= Set::empty());
            assert(self.subgraphs@ =~= old(self).subgraphs@.remove_keys(Set::empty()));
        }
        while k > 0
            invariant
                self.wf(),
                st0 == old(self).states,
                k <= all@.len(),
                all@.len() > 0 && all@[0]@ == path@,
                key_seq(all@).to_set() == sub,
                self.states.nodes_removed(&st0, key_seq(all@).subrange(k as int, all@.len() as int).to_set()),
                k < all@.len() && st0.generation() < u64::MAX ==> st0.generation() < self.states.generation(),
                self.subgraphs@ == old(self).subgraphs@.remove_keys(key_seq(all@).subrange(k as int, all@.len() as int).to_set()),
                self.errors == old(self).errors,
                self.removed == old(self).removed,
            decreases k,
        {
            k = k - 1;
            let p = &all[k];
            let ghost m = self.states;
            let ghost ps = key_seq(all@).subrange(k + 1, all@.len() as int).to_set();
            self.states.remove_node(p);
            self.subgraphs.remove(p);
            proof {
                NodeStates::lemma_nodes_removed_step(&st0, &m, &self.states, ps, p@);
                assert(key_seq(all@).subrange(k as int, all@.len() as int) =~= seq![p@] + key_seq(all@).subrange(k + 1, all@.len() as int));
                assert(key_seq(all@).subrange(k as int, all@.len() as int).to_set() =~= ps.insert(p@)) by {
                    let a = key_seq(all@).subrange(k as int, all@.len() as int);
                    let b = key_seq(all@).subrange(k + 1, all@.len() as int);
                    assert forall|x: Seq<u128>| a.to_set().contains(x) <==> ps.insert(p@).contains(x) by {
                        if a.to_set().contains(x) {
                            let t = choose|t: int| 0 <= t < a.len() && a[t] == x;
                            if t > 0 {
                                assert(b[t - 1] == x);
                            }
                        }
                        if b.to_set().contains(x) {
                            let t = choose|t: int| 0 <= t < b.len() && b[t] == x;
                            assert(a[t + 1] == x);
                        }
                        if x == p@ {
                            assert(a[0] == x);
                        }
                    }
                }
                assert(self.subgraphs@ =~= old(self).subgraphs@.remove_keys(ps.insert(p@)));
            }
        }
        proof {
            assert(key_seq(all@).subrange(0, all@.len() as int) =~= key_seq(all@));
        }
        let ghost r0 = self.removed_ids();
        let ghost mid_states = self.states;
        let ghost mid_sub = self.subgraphs;
        let mut k: usize = all.len();
        while k > 0
            invariant
                self.states == mid_states,
                self.subgraphs == mid_sub,
                self.errors == old(self).errors,
                k <= all@.len(),
                r0 == old(self).removed_ids(),
                r0.len() <= self.removed_ids().len(),
                self.removed_ids().subrange(0, r0.len() as int) == r0,
                self.removed_ids().subrange(r0.len() as int, self.removed_ids().len() as int).to_set() == Set::new(
                    |x: u128| exists|j: int| k <= j < all@.len() && (#[trigger] all@[j])@.len() > 0 && all@[j]@.last() == x,
                ),
                self.wf(),
            decreases k,
        {
            k = k - 1;
            let ghost before = self.removed_ids();
            match all[k].leaf() {
                Some(id) => {
                    self.record_removal(id);
                    proof {
                        let n = r0.len() as int;
                        assert(self.removed_ids().subrange(0, n) =~= before.subrange(0, n));
                        assert(self.removed_ids().subrange(n, self.removed_ids().len() as int) =~= before.subrange(n, before.len() as int).push(id@));
                        before.subrange(n, before.len() as int).lemma_push_to_set_commute(id@);
                        let s_new = Set::new(|x: u128| exists|j: int| k <= j < all@.len() && (#[trigger] all@[j])@.len() > 0 && all@[j]@.last() == x);
                        let s_old = Set::new(|x: u128| exists|j: int| k + 1 <= j < all@.len() && (#[trigger] all@[j])@.len() > 0 && all@[j]@.last() == x);
                        assert forall|x: u128| s_new.contains(x) implies s_old.insert(id@).contains(x) by {
                            let j = choose|j: int| k <= j < all@.len() && (#[trigger] all@[j])@.len() > 0 && all@[j]@.last() == x;
                            if j != k {
                                assert(k + 1 <= j);
                            }
                        }
                        assert forall|x: u128| s_old.insert(id@).contains(x) implies s_new.contains(x) by {
                            if x == id@ {
                                assert(all@[k as int]@.len() > 0 && all@[k as int]@.last() == x);
                            } else {
                                let j = choose|j: int| k + 1 <= j < all@.len() && (#[trigger] all@[j])@.len() > 0 && all@[j]@.last() == x;
                            }
                        }
                        assert(self.removed_ids().subrange(n, self.removed_ids().len() as int).to_set() =~= s_new);
                    }
                },
                None => {
                    proof {
                        let s_new = Set::new(|x: u128| exists|j: int| k <= j < all@.len() && (#[trigger] all@[j])@.len() > 0 && all@[j]@.last() == x);
                        let s_old = Set::new(|x: u128| exists|j: int| k + 1 <= j < all@.len() && (#[trigger] all@[j])@.len() > 0 && all@[j]@.last() == x);
                        assert forall|x: u128| s_new.contains(x) implies s_old.contains(x) by {
                            let j = choose|j: int| k <= j < all@.len() && (#[trigger] all@[j])@.len() > 0 && all@[j]@.last() == x;
                            if j == k {
                                assert(all@[k as int]@.len() == 0);
                            }
                        }
                        assert forall|x: u128| s_old.contains(x) implies s_new.contains(x) by {
                            let j = choose|j: int| k + 1 <= j < all@.len() && (#[trigger] all@[j])@.len() > 0 && all@[j]@.last() == x;
                        }
                        assert(s_new =~= s_old);
                    }
                },
            }
        }
        proof {
            let s_a = Set::new(|x: u128| exists|j: int| 0 <= j < all@.len() && (#[trigger] all@[j])@.len() > 0 && all@[j]@.last() == x);
            let s_b = Set::new(|x: u128| exists|q: Seq<u128>| #[trigger] sub.contains(q) && q.len() > 0 && q.last() == x);
            assert(s_a =~= s_b) by {
                assert forall|x: u128| s_a.contains(x) implies s_b.contains(x) by {
                    let j = choose|j: int| 0 <= j < all@.len() && (#[trigger] all@[j])@.len() > 0 && all@[j]@.last() == x;
                    assert(key_seq(all@)[j] == all@[j]@);
                    assert(sub.contains(all@[j]@));
                }
                assert forall|x: u128| s_b.contains(x) implies s_a.contains(x) by {
                    let q = choose|q: Seq<u128>| #[trigger] sub.contains(q) && q.len() > 0 && q.last() == x;
                    assert(key_seq(all@).to_set().contains(q));
                    let j = choose|j: int| 0 <= j < key_seq(all@).len() && key_seq(all@)[j] == q;
                    assert(all@[j]@ == q);
                }
            }
        }
        Ok(())
    }

    /// Removes the root-level node `node_id` (its edges and slot tables
    /// with it) and records it for the next execution result.
    pub fn remove_node(&mut self, node_id: NodeId) -> (r: Result<(), String>)
        requires
            old(self).wf(),
        ensures
            final(self).wf(),
            r is Ok == old(self).st().node_map().dom().contains(seq![node_id@]),
            r matches Err(m) ==> m@ == "Node not found."@ && *final(self) == *old(self),
            r is Ok ==> {
                &&& final(self).st().node_removed(&old(self).st(), seq![node_id@])
                &&& final(self).subgraph_map() == old(self).subgraph_map().remove(seq![node_id@])
                &&& final(self).error_map() == old(self).error_map()
                &&& final(self).removed_ids() == old(self).removed_ids().push(node_id@)
            },
    {
        let p = NodePath::root().child(node_id);
        assert(p@ =~= seq![node_id@]);
        if self.states.get(&p).is_none() {
            return Err(String::from_str("Node not found."));
        }
        self.states.remove_node(&p);
        self.subgraphs.remove(&p);
        self.record_removal(node_id);
        Ok(())
    }


    // === Node data ===

    fn no_node_at(path: &NodePath) -> (r: String)
        ensures
            r@ == no_node_at_text(path@),
    {
        let p = path.display_string();
        concat3("Node at path ", p.as_str(), " not found")
    }

    /// Replaces the data of the node at `path` and marks it changed.
    pub fn update_node_data_at(&mut self, path: &NodePath, data: NodeData<D>) -> (r: Result<(), String>)
        requires
            old(self).wf(),
        ensures
            final(self).wf(),
            r is Ok == old(self).st().node_map().dom().contains(path@),
            r matches Err(m) ==> m@ == no_node_at_text(path@) && *final(self) == *old(self),
            r is Ok ==> {
                &&& final(self).st().node_map() == old(self).st().node_map().insert(
                    path@,
                    NodeState { data: Some(data), ..old(self).st().node_map()[path@] },
                )
                &&& final(self).st().changed() == old(self).st().changed().insert(path@)
                &&& final(self).st().same_slots(&old(self).st())
                &&& same_wiring(&final(self).st(), &old(self).st())
                &&& final(self).st().generation() == old(self).st().generation()
                &&& final(self).subgraph_map() == old(self).subgraph_map()
                &&& final(self).error_map() == old(self).error_map()
                &&& final(self).removed_ids() == old(self).removed_ids()
            },
    {
        if self.states.get(path).is_none() {
            return Err(Self::no_node_at(path));
        }
        self.states.set_node_data(path, Some(data));
        self.states.mark_changed(path);
        Ok(())
    }

    /// Stamps the node at `path` as an interface node facing `direction`,
    /// with no port locked, and marks it changed.
    pub fn stamp_interface_direction(&mut self, path: &NodePath, direction: InterfaceDirection) -> (r: Result<(), String>)
        requires
            old(self).wf(),
        ensures
            final(self).wf(),
            r is Ok == old(self).st().node_map().dom().contains(path@),
            r matches Err(m) ==> m@ == "stamp_interface_direction: node at "@ + path_display(path@) + " not found"@
                && *final(self) == *old(self),
            r is Ok ==> {
                &&& final(self).st().node_map().dom() == old(self).st().node_map().dom()
                &&& forall|q: Seq<u128>| q != path@ ==> #[trigger] final(self).st().node_map()[q] == old(self).st().node_map()[q]
                &&& final(self).st().node_map()[path@].type_label == old(self).st().node_map()[path@].type_label
                &&& final(self).st().node_map()[path@].rust_type_id == old(self).st().node_map()[path@].rust_type_id
                &&& final(self).st().node_map()[path@].data matches Some(NodeData::Interface(d)) && d.direction == direction
                    && d.locked@.len() == 0
                &&& final(self).st().changed() == old(self).st().changed().insert(path@)
                &&& final(self).st().same_slots(&old(self).st())
                &&& same_wiring(&final(self).st(), &old(self).st())
                &&& final(self).st().generation() == old(self).st().generation()
                &&& final(self).subgraph_map() == old(self).subgraph_map()
                &&& final(self).error_map() == old(self).error_map()
                &&& final(self).removed_ids() == old(self).removed_ids()
            },
    {
        if self.states.get(path).is_none() {
            let mut m = String::from_str("stamp_interface_direction: node at ");
            let d = path.display_string();
            m.append(d.as_str());
            m.append(" not found");
            return Err(m);
        }
        let data = InterfaceNodeData { direction, locked: Vec::new() };
        self.states.set_node_data(path, Some(NodeData::Interface(data)));
        self.states.mark_changed(path);
        assert(self.st().node_map().dom() =~= old(self).st().node_map().dom());
        Ok(())
    }

    /// Clears the data of the node at `path` and marks it changed.
    pub fn clear_node_data_at(&mut self, path: &NodePath) -> (r: Result<(), String>)
        requires
            old(self).wf(),
        ensures
            final(self).wf(),
            r is Ok == old(self).st().node_map().dom().contains(path@),
            r matches Err(m) ==> m@ == no_node_at_text(path@) && *final(self) == *old(self),
            r is Ok ==> {
                &&& final(self).st().node_map() == old(self).st().node_map().insert(
                    path@,
                    NodeState { data: None, ..old(self).st().node_map()[path@] },
                )
                &&& final(self).st().changed() == old(self).st().changed().insert(path@)
                &&& final(self).st().same_slots(&old(self).st())
                &&& same_wiring(&final(self).st(), &old(self).st())
                &&& final(self).st().generation() == old(self).st().generation()
                &&& final(self).subgraph_map() == old(self).subgraph_map()
                &&& final(self).error_map() == old(self).error_map()
                &&& final(self).removed_ids() == old(self).removed_ids()
            },
    {
        if self.states.get(path).is_none() {
            return Err(Self::no_node_at(path));
        }
        self.states.set_node_data(path, None);
        self.states.mark_changed(path);
        Ok(())
    }

    /// Replaces the data of the root-level node `node_id`.
    pub fn update_node_data(&mut self, node_id: &NodeId, data: NodeData<D>) -> (r: Result<(), String>)
        requires
            old(self).wf(),
        ensures
            final(self).wf(),
            r is Ok == old(self).st().node_map().dom().contains(seq![node_id@]),
            r matches Err(m) ==> m@ == no_node_at_text(seq![node_id@]) && *final(self) == *old(self),
            r is Ok ==> {
                &&& final(self).st().node_map() == old(self).st().node_map().insert(
                    seq![node_id@],
                    NodeState { data: Some(data), ..old(self).st().node_map()[seq![node_id@]] },
                )
                &&& final(self).st().changed() == old(self).st().changed().insert(seq![node_id@])
                &&& final(self).st().same_slots(&old(self).st())
                &&& same_wiring(&final(self).st(), &old(self).st())
                &&& final(self).st().generation() == old(self).st().generation()
                &&& final(self).subgraph_map() == old(self).subgraph_map()
                &&& final(self).error_map() == old(self).error_map()
                &&& final(self).removed_ids() == old(self).removed_ids()
            },
    {
        let p = NodePath::root().child(*node_id);
        assert(p@ =~= seq![node_id@]);
        self.update_node_data_at(&p, data)
    }

    /// The path a slot default at `path` is mirrored to: the input proxy
    /// of the SubGraph at `path`, if there is one.
    pub open spec fn mirror_of(&self, path: Seq<u128>) -> Option<Seq<u128>> {
        if self.subgraph_map().dom().contains(path) {
            Some(path.push(self.subgraph_map()[path].input_proxy_id@))
        } else {
            None
        }
    }

    /// What writing default `value` (`mirror` on the proxy side) to slot
    /// `index` at `path` makes of `self`, answering `r` for operation `op`.
    pub open spec fn default_set(&self, next: &Self, op: Seq<char>, path: Seq<u128>, index: usize, value: Option<V>,
        mirror: Option<V>, r: Result<(), String>) -> bool {
        let m = self.mirror_of(path);
        if index >= self.st().inputs(path).len() {
            r matches Err(t) && t@ == default_slot_missing_text(op, index, path) && *next == *self
        } else if m is Some && index >= self.st().inputs(m->0).len() {
            r matches Err(t) && t@ == default_proxy_missing_text(op, index, path) && *next == *self
        } else {
            &&& r is Ok
            &&& default_written(next.st().inputs(path), self.st().inputs(path), index as int, value)
            &&& m is Some ==> default_written(next.st().inputs(m->0), self.st().inputs(m->0), index as int, mirror)
            &&& forall|q: Seq<u128>| q != path && Some(q) != m ==> #[trigger] next.st().inputs(q) == self.st().inputs(q)
            &&& forall|q: Seq<u128>| #[trigger] next.st().outputs(q) == self.st().outputs(q)
            &&& next.st().changed() == if m is Some {
                self.st().changed().insert(path).insert(m->0)
            } else {
                self.st().changed().insert(path)
            }
            &&& next.st().node_map() == self.st().node_map()
            &&& same_wiring(&next.st(), &self.st())
            &&& advanced(self.st().generation(), next.st().generation())
            &&& next.subgraph_map() == self.subgraph_map()
            &&& next.error_map() == self.error_map()
            &&& next.removed_ids() == self.removed_ids()
        }
    }

    /// Writes `value` (or clears, for `None`) as the default of input slot
    /// `index` at `path`, and of the same slot of its input proxy when
    /// `path` is a SubGraph; both slots are checked before either is
    /// written, and both paths are marked changed.
    fn write_default(&mut self, op: &str, path: &NodePath, index: usize, value: Option<V>, mirror: Option<V>) -> (r: Result<(), String>)
        requires
            old(self).wf(),
        ensures
            final(self).wf(),
            old(self).default_set(&*final(self), op@, path@, index, value, mirror, r),
    {
        let proxy = match self.subgraphs.get(path) {
            Some(sg) => Some(path.child(sg.input_proxy_id)),
            None => None,
        };
        if self.states.input_slot(path, index).is_none() {
            let mut m = String::from_str(op);
            m.append(": slot ");
            let d = decimal_string(index as u128);
            m.append(d.as_str());
            m.append(" not found at path ");
            let p = path.display_string();
            m.append(p.as_str());
            return Err(m);
        }
        match &proxy {
            Some(pp) => {
                if self.states.input_slot(pp, index).is_none() {
                    let mut m = String::from_str(op);
                    m.append(": InputProxy missing slot ");
                    let d = decimal_string(index as u128);
                    m.append(d.as_str());
                    m.append(" for SubGraph at ");
                    let p = path.display_string();
                    m.append(p.as_str());
                    return Err(m);
                }
            },
            None => {},
        }
        let ghost s0 = self.states;
        self.states.set_input_slot_default(path, index, value);
        let ghost s1 = self.states;
        match &proxy {
            Some(pp) => {
                self.states.set_input_slot_default(pp, index, mirror);
            },
            None => {},
        }
        let ghost s2 = self.states;
        self.states.mark_changed(path);
        match &proxy {
            Some(pp) => {
                self.states.mark_changed(pp);
            },
            None => {},
        }
        proof {
            let m = old(self).mirror_of(path@);
            if m is Some {
                assert(m->0 != path@) by {
                    assert(m->0.len() != path@.len());
                }
            }
            assert(default_written(s1.inputs(path@), s0.inputs(path@), index as int, value)) by {
                assert(s1.inputs(path@) =~= s0.inputs(path@).update(index as int, InputSlotState { default_value: value, ..s0.inputs(path@)[index as int] }));
            }
        }
        Ok(())
    }

    /// Sets the default of input slot `slot_index` at `path` to `value`,
    /// mirrored to the input proxy when `path` is a SubGraph.
    pub fn update_input_slot_default_data_at(&mut self, path: &NodePath, slot_index: usize, value: V) -> (r: Result<(), String>)
        where V: Clone,
        requires
            old(self).wf(),
        ensures
            final(self).wf(),
            exists|m: V| vstd::pervasive::cloned(value, m) && old(self).default_set(
                &*final(self),
                "update_input_slot_default_data_at"@,
                path@,
                slot_index,
                Some(value),
                Some(m),
                r,
            ),
    {
        let mirror = value.clone();
        let ghost m = mirror;
        let r = self.write_default("update_input_slot_default_data_at", path, slot_index, Some(value), Some(mirror));
        assert(vstd::pervasive::cloned(value, m));
        r
    }

    /// Clears the default of input slot `slot_index` at `path`, and of the
    /// mirrored proxy slot when `path` is a SubGraph.
    pub fn clear_input_slot_default_data_at(&mut self, path: &NodePath, slot_index: usize) -> (r: Result<(), String>)
        requires
            old(self).wf(),
        ensures
            final(self).wf(),
            old(self).default_set(&*final(self), "clear_input_slot_default_data_at"@, path@, slot_index, None, None, r),
    {
        self.write_default("clear_input_slot_default_data_at", path, slot_index, None, None)
    }

    /// Sets the default of input slot `slot_index` of the root-level node
    /// `node_id`.
    pub fn update_input_slot_default_data(&mut self, node_id: &NodeId, slot_index: usize, value: V) -> (r: Result<(), String>)
        where V: Clone,
        requires
            old(self).wf(),
        ensures
            final(self).wf(),
            exists|m: V| vstd::pervasive::cloned(value, m) && old(self).default_set(
                &*final(self),
                "update_input_slot_default_data_at"@,
                seq![node_id@],
                slot_index,
                Some(value),
                Some(m),
                r,
            ),
    {
        let p = NodePath::root().child(*node_id);
        assert(p@ =~= seq![node_id@]);
        self.update_input_slot_default_data_at(&p, slot_index, value)
    }

    /// What writing default `value` (`mirror` on the proxy) to external
    /// input `index` of the root-level SubGraph `node_id` makes of `self`,
    /// answering `r` for operation `op`.
    pub open spec fn subgraph_default_set(&self, next: &Self, op: Seq<char>, node_id: NodeId, index: usize,
        value: Option<V>, mirror: Option<V>, r: Result<(), String>) -> bool {
        let sg = seq![node_id@];
        if !self.subgraph_map().dom().contains(sg) {
            r matches Err(t) && t@ == no_input_proxy_text(op, node_id@) && *next == *self
        } else if index >= self.st().inputs(sg).len() {
            r matches Err(t) && t@ == external_slot_missing_text(op, index, node_id@) && *next == *self
        } else if index >= self.st().inputs(sg.push(self.subgraph_map()[sg].input_proxy_id@)).len() {
            r matches Err(t) && t@ == proxy_slot_missing_text(op, self.subgraph_map()[sg].input_proxy_id@, index)
                && *next == *self
        } else {
            &&& r is Ok
            &&& self.default_set(next, op, sg, index, value, mirror, r)
        }
    }

    /// Writes `value` (or clears, for `None`) as the default of external
    /// input `index` of the root-level SubGraph `node_id` and of the same
    /// slot of its input proxy; both slots are checked before either is
    /// written.
    fn write_subgraph_default(&mut self, op: &str, node_id: &NodeId, index: usize, value: Option<V>, mirror: Option<V>) -> (r: Result<(), String>)
        requires
            old(self).wf(),
        ensures
            final(self).wf(),
            old(self).subgraph_default_set(&*final(self), op@, *node_id, index, value, mirror, r),
    {
        let p = NodePath::root().child(*node_id);
        assert(p@ =~= seq![node_id@]);
        let proxy_id = match self.subgraphs.get(&p) {
            None => {
                let mut m = String::from_str(op);
                m.append(": SubGraph ");
                let d = node_id_debug(node_id);
                m.append(d.as_str());
                m.append(" has no input proxy (schema corruption)");
                return Err(m);
            },
            Some(sg) => sg.input_proxy_id,
        };
        if self.states.input_slot(&p, index).is_none() {
            let mut m = String::from_str(op);
            m.append(": external slot ");
            let d = decimal_string(index as u128);
            m.append(d.as_str());
            m.append(" missing on SubGraph ");
            let n = node_id_debug(node_id);
            m.append(n.as_str());
            return Err(m);
        }
        let pp = p.child(proxy_id);
        if self.states.input_slot(&pp, index).is_none() {
            let mut m = String::from_str(op);
            m.append(": InputProxy ");
            let n = node_id_debug(&proxy_id);
            m.append(n.as_str());
            m.append(" missing slot ");
            let d = decimal_string(index as u128);
            m.append(d.as_str());
            m.append(" (schema mismatch with SubGraph external)");
            return Err(m);
        }
        self.write_default(op, &p, index, value, mirror)
    }

    /// Sets the default of external input `input_index` of the root-level
    /// SubGraph `node_id` to `value` and mirrors it onto the same slot of
    /// its input proxy; both paths are marked changed.
    pub fn set_subgraph_input_default(&mut self, node_id: &NodeId, input_index: usize, value: V) -> (r: Result<(), String>)
        where V: Clone,
        requires
            old(self).wf(),
        ensures
            final(self).wf(),
            exists|m: V| vstd::pervasive::cloned(value, m) && old(self).subgraph_default_set(
                &*final(self),
                "set_subgraph_input_default"@,
                *node_id,
                input_index,
                Some(value),
                Some(m),
                r,
            ),
    {
        let mirror = value.clone();
        let ghost m = mirror;
        let r = self.write_subgraph_default("set_subgraph_input_default", node_id, input_index, Some(value), Some(mirror));
        assert(vstd::pervasive::cloned(value, m));
        r
    }

    /// Clears the default of external input `input_index` of the
    /// root-level SubGraph `node_id` and of the mirrored proxy slot; both
    /// paths are marked changed.
    pub fn clear_subgraph_input_default(&mut self, node_id: &NodeId, input_index: usize) -> (r: Result<(), String>)
        requires
            old(self).wf(),
        ensures
            final(self).wf(),
            old(self).subgraph_default_set(&*final(self), "clear_subgraph_input_default"@, *node_id, input_index, None, None, r),
    {
        self.write_subgraph_default("clear_subgraph_input_default", node_id, input_index, None, None)
    }

}

impl<D: PayloadType, V> NodeGraph<D, V> {
    /// What recording `label` as locked on the interface node at `p`
    /// makes of `self`, answering `r`.
    pub open spec fn label_locked(&self, next: &Self, p: Seq<u128>, label: Seq<char>, r: Result<(), String>) -> bool {
        let st = self.st();
        if !st.node_map().dom().contains(p) {
            r matches Err(m) && m@ == lock_target_missing_text(p) && *next == *self
        } else if st.node_map()[p].data matches Some(NodeData::Value(_)) {
            r matches Err(m) && m@.len() >= lock_domain_text(p).len() && m@.subrange(0, lock_domain_text(p).len() as int)
                == lock_domain_text(p) && *next == *self
        } else {
            let before = interface_data_of(st.node_map()[p].data);
            &&& r is Ok
            &&& next.st().node_map().dom() == st.node_map().dom()
            &&& forall|q: Seq<u128>| q != p ==> #[trigger] next.st().node_map()[q] == st.node_map()[q]
            &&& next.st().node_map()[p].type_label == st.node_map()[p].type_label
            &&& next.st().node_map()[p].rust_type_id == st.node_map()[p].rust_type_id
            &&& next.st().node_map()[p].data matches Some(NodeData::Interface(_))
            &&& interface_data_of(next.st().node_map()[p].data) == (before.0, before.1.insert(label))
            &&& next.st().changed() == st.changed().insert(p)
            &&& next.st().same_slots(&st)
            &&& same_wiring(&next.st(), &st)
            &&& next.st().generation() == st.generation()
            &&& next.subgraph_map() == self.subgraph_map()
            &&& next.error_map() == self.error_map()
            &&& next.removed_ids() == self.removed_ids()
        }
    }

    /// Records `label` as locked on the interface node at `p` (data of
    /// none is taken as input-facing with nothing locked) and marks the
    /// node changed.
    fn append_locked_label_at(&mut self, p: &NodePath, label: &str) -> (r: Result<(), String>)
        requires
            old(self).wf(),
        ensures
            final(self).wf(),
            old(self).label_locked(&*final(self), p@, label@, r),
    {
        let existing = match self.states.get(p) {
            None => {
                let mut m = String::from_str("Node at ");
                let d = p.display_string();
                m.append(d.as_str());
                m.append(" disappeared mid-call");
                return Err(m);
            },
            Some(st) => match &st.data {
                None => None,
                Some(NodeData::Interface(d)) => Some(d.duplicate()),
                Some(NodeData::Value(v)) => {
                    let mut m = String::from_str("InterfaceNode at ");
                    let d = p.display_string();
                    m.append(d.as_str());
                    m.append(" has non-matching NodeData domain ");
                    let ghost pre = m@;
                    let t = type_debug_string(v.payload_type());
                    m.append(t.as_str());
                    assert(m@.subrange(0, pre.len() as int) =~= pre);
                    return Err(m);
                },
            },
        };
        let mut data = match existing {
            Some(d) => d,
            None => InterfaceNodeData::new_default(),
        };
        data.lock(String::from_str(label));
        self.states.set_node_data(p, Some(NodeData::Interface(data)));
        self.states.mark_changed(p);
        proof {
            assert(interface_data_of(self.st().node_map()[p@].data).1 =~= interface_data_of(
                old(self).st().node_map()[p@].data,
            ).1.insert(label@));
            assert(self.subgraph_map() == old(self).subgraph_map());
            assert(self.error_map() == old(self).error_map());
            assert(self.removed_ids() == old(self).removed_ids());
            assert(same_wiring(&self.st(), &old(self).st()));
            assert(self.st().same_slots(&old(self).st()));
            assert(self.st().node_map().dom() =~= old(self).st().node_map().dom());
        }
        Ok(())
    }

    /// Checks that the root-level node `node_id` is an interface node
    /// whose data, if any, is interface data; returns that data.
    fn interface_target(&self, node_id: &NodeId, suffix: bool) -> (r: Result<Option<InterfaceNodeData>, String>)
        requires
            self.wf(),
        ensures
            ({
                let p = seq![node_id@];
                let st = self.st();
                if !st.node_map().dom().contains(p) {
                    r matches Err(m) && m@ == "Node "@ + node_id_debug_text(node_id@) + " not found"@
                } else if st.node_map()[p].type_label@ != interface_name() {
                    r matches Err(m) && m@ == "Node "@ + node_id_debug_text(node_id@) + " is not an InterfaceNode (got "@
                        + st.node_map()[p].type_label@ + ")"@
                } else {
                    match st.node_map()[p].data {
                        Some(NodeData::Value(_)) => r matches Err(m) && m@.len() >= ("InterfaceNode "@ + node_id_debug_text(node_id@)
                            + " has non-matching NodeData domain "@).len() && m@.subrange(0, ("InterfaceNode "@ + node_id_debug_text(node_id@)
                            + " has non-matching NodeData domain "@).len() as int) == "InterfaceNode "@ + node_id_debug_text(node_id@)
                            + " has non-matching NodeData domain "@,
                        Some(NodeData::Interface(d)) => r matches Ok(Some(e)) && e.direction == d.direction && e.locked_labels() == d.locked_labels(),
                        None => r matches Ok(None),
                    }
                }
            }),
    {
        let p = NodePath::root().child(*node_id);
        assert(p@ =~= seq![node_id@]);
        let st = match self.states.get(&p) {
            None => {
                let d = node_id_debug(node_id);
                proof {
                    reveal_strlit("Node ");
                }
                return Err(concat3("Node ", d.as_str(), " not found"));
            },
            Some(st) => st,
        };
        proof {
            reveal_strlit("InterfaceNode");
        }
        if !str_eq(st.type_label, "InterfaceNode") {
            let d = node_id_debug(node_id);
            let mut m = concat3("Node ", d.as_str(), " is not an InterfaceNode (got ");
            m.append(st.type_label);
            m.append(")");
            return Err(m);
        }
        match &st.data {
            None => Ok(None),
            Some(NodeData::Interface(d)) => Ok(Some(d.duplicate())),
            Some(NodeData::Value(v)) => {
                let d = node_id_debug(node_id);
                let mut m = concat3("InterfaceNode ", d.as_str(), " has non-matching NodeData domain ");
                let ghost pre = m@;
                let t = type_debug_string(v.payload_type());
                m.append(t.as_str());
                if suffix {
                    m.append("; expected Domain(\"InterfaceNodeData\")");
                }
                assert(m@.subrange(0, pre.len() as int) =~= pre);
                Err(m)
            },
        }
    }

    /// Adds a port labelled `label` of type `data_type` to the root-level
    /// interface node `node_id`: one input slot (one connection) and one
    /// output slot at the same index, which is returned. With `locked`,
    /// the label joins the node's locked set and the node is marked
    /// changed.
    pub fn add_interface_port(&mut self, node_id: &NodeId, label: &'static str, data_type: DataType, locked: bool) -> (r:
        Result<usize, String>)
        requires
            old(self).wf(),
            ({
                let p = seq![node_id@];
                let st = old(self).st();
                st.node_map().dom().contains(p) && st.node_map()[p].type_label@ == interface_name() && !(
                st.node_map()[p].data matches Some(NodeData::Value(_))) ==> st.inputs(p).len() == st.outputs(
                    p,
                ).len()
            }),
        ensures
            final(self).wf(),
            final(self).subgraph_map() == old(self).subgraph_map(),
            final(self).error_map() == old(self).error_map(),
            final(self).removed_ids() == old(self).removed_ids(),
            ({
                let p = seq![node_id@];
                let st = old(self).st();
                if st.node_map().dom().contains(p) && st.node_map()[p].type_label@ == interface_name() && !(
                st.node_map()[p].data matches Some(NodeData::Value(_))) {
                    let n = st.inputs(p).len();
                    let before = interface_data_of(st.node_map()[p].data);
                    &&& r == Ok::<usize, String>(n as usize)
                    &&& final(self).st().inputs(p).len() == n + 1
                    &&& final(self).st().inputs(p).subrange(0, n as int) == st.inputs(p)
                    &&& NodeStates::<D, V>::input_slot_is(final(self).st().inputs(p)[n as int], label, data_type, Some(1usize), true)
                    &&& final(self).st().outputs(p).len() == n + 1
                    &&& final(self).st().outputs(p).subrange(0, n as int) == st.outputs(p)
                    &&& final(self).st().outputs(p)[n as int].label == label
                    &&& final(self).st().outputs(p)[n as int].data_type == data_type
                    &&& forall|q: Seq<u128>| q != p ==> #[trigger] final(self).st().inputs(q) == st.inputs(q)
                    &&& forall|q: Seq<u128>| q != p ==> #[trigger] final(self).st().outputs(q) == st.outputs(q)
                    &&& same_wiring(&final(self).st(), &st)
                    &&& advanced(st.generation(), final(self).st().generation())
                    &&& if locked {
                        &&& final(self).st().node_map().dom() == st.node_map().dom()
                        &&& forall|q: Seq<u128>| q != p ==> #[trigger] final(self).st().node_map()[q] == st.node_map()[q]
                        &&& final(self).st().node_map()[p].type_label == st.node_map()[p].type_label
                        &&& final(self).st().node_map()[p].rust_type_id == st.node_map()[p].rust_type_id
                        &&& interface_data_of(final(self).st().node_map()[p].data) == (before.0, before.1.insert(label@))
                        &&& final(self).st().node_map()[p].data matches Some(NodeData::Interface(_))
                        &&& final(self).st().changed() == st.changed().insert(p)
                    } else {
                        &&& final(self).st().node_map() == st.node_map()
                        &&& final(self).st().changed() == st.changed()
                    }
                } else {
                    r is Err && *final(self) == *old(self)
                }
            }),
            old(self).interface_refusal(node_id@, r, true),
    {
        let existing = match self.interface_target(node_id, true) {
            Err(m) => {
                return Err(m);
            },
            Ok(d) => d,
        };
        let p = NodePath::root().child(*node_id);
        assert(p@ =~= seq![node_id@]);
        let ghost s0 = self.states;
        let idx = self.states.add_input_slot(&p, label, data_type, Some(1), true);
        let ghost s1 = self.states;
        self.states.add_output_slot(&p, label, data_type);
        let ghost s2 = self.states;
        if locked {
            let mut data = match existing {
                Some(d) => d,
                None => InterfaceNodeData::new_default(),
            };
            data.lock(String::from_str(label));
            self.states.set_node_data(&p, Some(NodeData::Interface(data)));
            self.states.mark_changed(&p);
            proof {
                assert(interface_data_of(self.st().node_map()[p@].data).1 =~= interface_data_of(old(self).st().node_map()[p@].data).1.insert(label@));
            }
        }
        proof {
            assert forall|q: Seq<u128>| q != p@ implies #[trigger] self.st().inputs(q) == s0.inputs(q) by {
                assert(s2.inputs(q) == s1.inputs(q));
            }
            assert(self.st().inputs(p@) == s1.inputs(p@));
        }
        Ok(idx)
    }

    /// The refusals shared by the interface port operations: no node, not
    /// an interface node, or data that is not interface data; nothing is
    /// changed by them.
    pub open spec fn interface_refusal<T>(&self, id: u128, r: Result<T, String>, suffix: bool) -> bool {
        let p = seq![id];
        let st = self.st();
        &&& !st.node_map().dom().contains(p) ==> (r matches Err(m) && m@ == "Node "@ + node_id_debug_text(id) + " not found"@)
        &&& st.node_map().dom().contains(p) && st.node_map()[p].type_label@ != interface_name() ==> (r matches Err(m) && m@
            == "Node "@ + node_id_debug_text(id) + " is not an InterfaceNode (got "@ + st.node_map()[p].type_label@ + ")"@)
    }

    /// Removes the port labelled `label` (the first one) from the
    /// root-level interface node `node_id`: the edges into its input slot
    /// and out of its output slot go first, then both slots; refused for a
    /// locked label or an unknown one.
    pub fn remove_interface_port(&mut self, node_id: &NodeId, label: &str) -> (r: Result<(), String>)
        requires
            old(self).wf(),
        ensures
            final(self).wf(),
            final(self).subgraph_map() == old(self).subgraph_map(),
            final(self).error_map() == old(self).error_map(),
            final(self).removed_ids() == old(self).removed_ids(),
            old(self).interface_refusal(node_id@, r, false),
            r is Err ==> *final(self) == *old(self),
            ({
                let p = seq![node_id@];
                let st = old(self).st();
                if st.node_map().dom().contains(p) && st.node_map()[p].type_label@ == interface_name() && !(
                st.node_map()[p].data matches Some(NodeData::Value(_))) {
                    let i = port_index(st.inputs(p), label@);
                    if interface_data_of(st.node_map()[p].data).1.contains(label@) {
                        r matches Err(m) && m@ == "InterfaceNode port '"@ + label@ + "' is locked and cannot be removed"@
                    } else if i < 0 {
                        r matches Err(m) && m@ == "InterfaceNode "@ + node_id_debug_text(node_id@) + " has no port labelled '"@ + label@ + "'"@
                    } else {
                        let b = i < st.outputs(p).len();
                        &&& r is Ok
                        &&& final(self).st().inputs(p) == st.inputs(p).remove(i)
                        &&& (b ==> final(self).st().outputs(p) == st.outputs(p).remove(i))
                        &&& (!b ==> final(self).st().outputs(p) == st.outputs(p))
                        &&& forall|q: Seq<u128>| q != p ==> #[trigger] final(self).st().inputs(q) == st.inputs(q)
                        &&& forall|q: Seq<u128>| q != p ==> #[trigger] final(self).st().outputs(q) == st.outputs(q)
                        &&& final(self).st().edge_map().dom() == st.edge_map().dom().filter(|x: u128| !(
                            st.edge_map()[x].to_input_slot_id@ == st.inputs(p)[i].id@
                            || (b && st.edge_map()[x].from_output_slot_id@ == st.outputs(p)[i].id@)))
                        &&& forall|k: u128| #[trigger] final(self).st().edge_map().dom().contains(k) ==> final(self).st().edge_map()[k]
                            == if b {
                                crate::node_state::shift_source_down(crate::node_state::shift_target_down(st.edge_map()[k], p, i), p, i)
                            } else {
                                crate::node_state::shift_target_down(st.edge_map()[k], p, i)
                            }
                        &&& final(self).st().lists_pruned(&st)
                        &&& final(self).st().same_children(&st)
                        &&& final(self).st().node_map() == st.node_map()
                        &&& final(self).st().changed() == st.changed().union(
                            Self::gone_targets(st.edge_map(), final(self).st().edge_map().dom()),
                        ).insert(p)
                        &&& advanced(st.generation(), final(self).st().generation())
                    }
                } else {
                    r is Err
                }
            }),
    {
        let existing = match self.interface_target(node_id, false) {
            Err(m) => {
                return Err(m);
            },
            Ok(d) => d,
        };
        match &existing {
            Some(d) => {
                if d.is_locked(label) {
                    return Err(concat3("InterfaceNode port '", label, "' is locked and cannot be removed"));
                }
            },
            None => {},
        }
        let p = NodePath::root().child(*node_id);
        assert(p@ =~= seq![node_id@]);
        let index = match self.find_label(&p, label) {
            None => {
                let d = node_id_debug(node_id);
                let mut m = concat3("InterfaceNode ", d.as_str(), " has no port labelled '");
                m.append(label);
                m.append("'");
                return Err(m);
            },
            Some(i) => i,
        };
        proof {
            lemma_port_index(old(self).st().inputs(p@), label@);
        }
        let ghost s0 = self.st();
        let ghost i = index as int;
        let ghost b = i < s0.outputs(p@).len();
        let in_sid = self.states.input_slot(&p, index).unwrap().id.0;
        self.remove_edges_into(in_sid);
        let ghost s1 = self.st();
        proof {
            assert(s1.outputs(p@) == s0.outputs(p@));
        }
        match self.states.output_slot(&p, index) {
            Some(slot) => {
                let sid = slot.id.0;
                self.remove_edges_out_of(sid);
                proof {
                    let s2 = self.st();
                    Self::lemma_gone_targets_trans(s0.edge_map(), s1.edge_map(), s2.edge_map().dom());
                    assert(s2.changed() =~= s0.changed().union(Self::gone_targets(s0.edge_map(), s2.edge_map().dom())));
                }
            },
            None => {},
        }
        let ghost s2 = self.st();
        proof {
            Self::lemma_pruned_or_same(&s1, &s2);
            NodeStates::<D, V>::lemma_pruned_trans(&s0, &s1, &s2);
        }
        self.states.remove_input_slot(&p, index);
        let ghost s3 = self.st();
        proof {
            Self::lemma_reshape_keeps_lists(&s2, &s3, p@, i, true);
            NodeStates::<D, V>::lemma_pruned_trans(&s0, &s2, &s3);
        }
        self.states.remove_output_slot(&p, index);
        let ghost s4 = self.st();
        proof {
            Self::lemma_reshape_keeps_lists(&s3, &s4, p@, i, false);
            NodeStates::<D, V>::lemma_pruned_trans(&s0, &s3, &s4);
        }
        self.states.mark_changed(&p);
        proof {
            let em = s0.edge_map();
            assert(s2.inputs(p@) == s0.inputs(p@));
            assert(s3.outputs(p@) == s0.outputs(p@));
            assert forall|k: u128| #[trigger] self.st().edge_map().dom().contains(k) implies self.st().edge_map()[k]
                == if b {
                    crate::node_state::shift_source_down(crate::node_state::shift_target_down(em[k], p@, i), p@, i)
                } else {
                    crate::node_state::shift_target_down(em[k], p@, i)
                } by {
                assert(s3.edge_map().dom().contains(k));
                assert(s2.edge_map().dom().contains(k));
                assert(s1.edge_map().dom().contains(k));
            }
            assert forall|x: u128| self.st().edge_map().dom().contains(x) <==> (em.dom().contains(x) && !(
                em[x].to_input_slot_id@ == s0.inputs(p@)[i].id@
                || (b && em[x].from_output_slot_id@ == s0.outputs(p@)[i].id@))) by {
                if em.dom().contains(x) && !(em[x].to_input_slot_id@ == s0.inputs(p@)[i].id@) {
                    assert(s1.edge_map().dom().contains(x));
                    assert(s1.edge_map()[x] == em[x]);
                }
                if s2.edge_map().dom().contains(x) {
                    assert(s1.edge_map().dom().contains(x));
                }
            }
            assert(self.st().edge_map().dom() =~= em.dom().filter(|x: u128| !(
                em[x].to_input_slot_id@ == s0.inputs(p@)[i].id@
                || (b && em[x].from_output_slot_id@ == s0.outputs(p@)[i].id@))));
            assert(s4.same_children(&s0));
            assert(s4.node_map() == s0.node_map());
            NodeStates::<D, V>::lemma_pruned_when_unchanged(&s4, &self.st());
            NodeStates::<D, V>::lemma_pruned_trans(&s0, &s4, &self.st());
        }
        Ok(())
    }

    /// Renames the port labelled `old_label` of the root-level interface
    /// node `node_id` to `new_label`, on both sides, keeping the slot ids
    /// so edges survive; refused for a locked or unknown old label, or a
    /// new label already in use.
    pub fn rename_interface_port(&mut self, node_id: &NodeId, old_label: &str, new_label: &'static str) -> (r: Result<(), String>)
        requires
            old(self).wf(),
        ensures
            final(self).wf(),
            final(self).subgraph_map() == old(self).subgraph_map(),
            final(self).error_map() == old(self).error_map(),
            final(self).removed_ids() == old(self).removed_ids(),
            old(self).interface_refusal(node_id@, r, false),
            r is Err ==> *final(self) == *old(self),
            ({
                let p = seq![node_id@];
                let st = old(self).st();
                if st.node_map().dom().contains(p) && st.node_map()[p].type_label@ == interface_name() && !(
                st.node_map()[p].data matches Some(NodeData::Value(_))) {
                    let i = port_index(st.inputs(p), old_label@);
                    if interface_data_of(st.node_map()[p].data).1.contains(old_label@) {
                        r matches Err(m) && m@ == "InterfaceNode port '"@ + old_label@ + "' is locked and cannot be renamed"@
                    } else if port_index(st.inputs(p), new_label@) >= 0 {
                        r matches Err(m) && m@ == "InterfaceNode "@ + node_id_debug_text(node_id@) + " already has a port labelled '"@ + new_label@ + "'"@
                    } else if i < 0 {
                        r matches Err(m) && m@ == "InterfaceNode "@ + node_id_debug_text(node_id@) + " has no port labelled '"@ + old_label@ + "'"@
                    } else {
                        &&& r is Ok
                        &&& final(self).st().inputs(p) == st.inputs(p).update(i, InputSlotState { label: new_label, ..st.inputs(p)[i] })
                        &&& (i < st.outputs(p).len() ==> final(self).st().outputs(p) == st.outputs(p).update(
                            i,
                            crate::node_state::OutputSlotState { label: new_label, ..st.outputs(p)[i] },
                        ))
                        &&& (i >= st.outputs(p).len() ==> final(self).st().outputs(p) == st.outputs(p))
                        &&& forall|q: Seq<u128>| q != p ==> #[trigger] final(self).st().inputs(q) == st.inputs(q)
                        &&& forall|q: Seq<u128>| q != p ==> #[trigger] final(self).st().outputs(q) == st.outputs(q)
                        &&& same_wiring(&final(self).st(), &st)
                        &&& final(self).st().node_map() == st.node_map()
                        &&& final(self).st().changed() == st.changed().insert(p)
                        &&& advanced(st.generation(), final(self).st().generation())
                    }
                } else {
                    r is Err
                }
            }),
    {
        let existing = match self.interface_target(node_id, false) {
            Err(m) => {
                return Err(m);
            },
            Ok(d) => d,
        };
        match &existing {
            Some(d) => {
                if d.is_locked(old_label) {
                    return Err(concat3("InterfaceNode port '", old_label, "' is locked and cannot be renamed"));
                }
            },
            None => {},
        }
        let p = NodePath::root().child(*node_id);
        assert(p@ =~= seq![node_id@]);
        if self.find_label(&p, new_label).is_some() {
            let d = node_id_debug(node_id);
            let mut m = concat3("InterfaceNode ", d.as_str(), " already has a port labelled '");
            m.append(new_label);
            m.append("'");
            return Err(m);
        }
        let index = match self.find_label(&p, old_label) {
            None => {
                let d = node_id_debug(node_id);
                let mut m = concat3("InterfaceNode ", d.as_str(), " has no port labelled '");
                m.append(old_label);
                m.append("'");
                return Err(m);
            },
            Some(i) => i,
        };
        proof {
            lemma_port_index(old(self).st().inputs(p@), old_label@);
        }
        let ghost s0 = self.states;
        self.states.set_input_slot_label(&p, index, new_label);
        let ghost s1 = self.states;
        self.states.set_output_slot_label(&p, index, new_label);
        self.states.mark_changed(&p);
        proof {
            assert forall|q: Seq<u128>| q != p@ implies #[trigger] self.st().inputs(q) == s0.inputs(q) by {
                assert(s1.inputs(q) == s0.inputs(q));
            }
        }
        Ok(())
    }
}

impl<D, V> NodeGraph<D, V> {
    fn not_subgraph(node_id: &NodeId) -> (r: String)
        ensures
            r@ == not_subgraph_text(node_id@),
    {
        let d = node_id_debug(node_id);
        concat3("Node ", d.as_str(), " is not a SubGraphNode")
    }

    /// The outcome of `add_subgraph_input`, leaving `next` and answering `r`.
    pub open spec fn input_port_added(&self, next: &Self, node_id: NodeId, label: &'static str, data_type: DataType, r: Result<(), String>) -> bool {
        &&& next.subgraph_map() == self.subgraph_map()
        &&& next.error_map() == self.error_map()
        &&& next.removed_ids() == self.removed_ids()
        &&& {
                let sg = seq![node_id@];
                let st = self.st();
                if !self.subgraph_map().dom().contains(sg) {
                    r matches Err(m) && m@ == not_subgraph_text(node_id@) && *next == *self
                } else {
                    let inp = sg.push(self.subgraph_map()[sg].input_proxy_id@);
                    &&& r is Ok
                    &&& input_appended(next.st().inputs(inp), st.inputs(inp), label, data_type, Some(1usize), true)
                    &&& output_appended(next.st().outputs(inp), st.outputs(inp), label, data_type)
                    &&& input_appended(next.st().inputs(sg), st.inputs(sg), label, data_type, None, true)
                    &&& forall|q: Seq<u128>| q != inp && q != sg ==> #[trigger] next.st().inputs(q) == st.inputs(q)
                    &&& forall|q: Seq<u128>| q != inp ==> #[trigger] next.st().outputs(q) == st.outputs(q)
                    &&& next.st().node_map() == st.node_map()
                    &&& same_wiring(&next.st(), &st)
                    &&& next.st().changed() == st.changed()
                    &&& advanced(st.generation(), next.st().generation())
                }
}
    }

    /// Adds an input port to the root-level SubGraph `node_id`: a port on
    /// its input proxy (an input slot taking one connection and an output
    /// slot) and the matching external input slot on the SubGraph.
    pub fn add_subgraph_input(&mut self, node_id: &NodeId, label: &'static str, data_type: DataType) -> (r: Result<(), String>)
        requires
            old(self).wf(),
        ensures
            final(self).wf(),
            old(self).input_port_added(&*final(self), *node_id, label, data_type, r),
    {
        let p = NodePath::root().child(*node_id);
        assert(p@ =~= seq![node_id@]);
        let inp = match self.subgraphs.get(&p) {
            None => {
                return Err(Self::not_subgraph(node_id));
            },
            Some(sg) => p.child(sg.input_proxy_id),
        };
        assert(inp@ != p@) by {
            assert(inp@.len() != p@.len());
        }
        let ghost s0 = self.states;
        self.states.add_input_slot(&inp, label, data_type, Some(1), true);
        let ghost s1 = self.states;
        self.states.add_output_slot(&inp, label, data_type);
        let ghost s2 = self.states;
        self.states.add_input_slot(&p, label, data_type, None, true);
        proof {
            assert(self.st().inputs(inp@) == s1.inputs(inp@));
            assert(s2.inputs(inp@) == s1.inputs(inp@));
            assert(s2.inputs(p@) == s0.inputs(p@));
            assert(self.st().outputs(inp@) == s2.outputs(inp@));
            assert forall|q: Seq<u128>| q != inp@ && q != p@ implies #[trigger] self.st().inputs(q) == s0.inputs(q) by {
                assert(s2.inputs(q) == s1.inputs(q));
            }
        }
        Ok(())
    }

    /// The outcome of `add_subgraph_output`, leaving `next` and answering `r`.
    pub open spec fn output_port_added(&self, next: &Self, node_id: NodeId, label: &'static str, data_type: DataType, r: Result<(), String>) -> bool {
        &&& next.subgraph_map() == self.subgraph_map()
        &&& next.error_map() == self.error_map()
        &&& next.removed_ids() == self.removed_ids()
        &&& {
                let sg = seq![node_id@];
                let st = self.st();
                if !self.subgraph_map().dom().contains(sg) {
                    r matches Err(m) && m@ == not_subgraph_text(node_id@) && *next == *self
                } else {
                    let outp = sg.push(self.subgraph_map()[sg].output_proxy_id@);
                    &&& r is Ok
                    &&& input_appended(next.st().inputs(outp), st.inputs(outp), label, data_type, None, true)
                    &&& output_appended(next.st().outputs(outp), st.outputs(outp), label, data_type)
                    &&& output_appended(next.st().outputs(sg), st.outputs(sg), label, data_type)
                    &&& forall|q: Seq<u128>| q != outp ==> #[trigger] next.st().inputs(q) == st.inputs(q)
                    &&& forall|q: Seq<u128>| q != outp && q != sg ==> #[trigger] next.st().outputs(q) == st.outputs(q)
                    &&& next.st().node_map() == st.node_map()
                    &&& same_wiring(&next.st(), &st)
                    &&& next.st().changed() == st.changed()
                    &&& advanced(st.generation(), next.st().generation())
                }
}
    }

    /// Adds an output port to the root-level SubGraph `node_id`: a port on
    /// its output proxy (an input slot and an output slot) and the
    /// matching external output slot on the SubGraph.
    pub fn add_subgraph_output(&mut self, node_id: &NodeId, label: &'static str, data_type: DataType) -> (r: Result<(), String>)
        requires
            old(self).wf(),
        ensures
            final(self).wf(),
            old(self).output_port_added(&*final(self), *node_id, label, data_type, r),
    {
        let p = NodePath::root().child(*node_id);
        assert(p@ =~= seq![node_id@]);
        let outp = match self.subgraphs.get(&p) {
            None => {
                return Err(Self::not_subgraph(node_id));
            },
            Some(sg) => p.child(sg.output_proxy_id),
        };
        assert(outp@ != p@) by {
            assert(outp@.len() != p@.len());
        }
        let ghost s0 = self.states;
        self.states.add_input_slot(&outp, label, data_type, None, true);
        let ghost s1 = self.states;
        self.states.add_output_slot(&outp, label, data_type);
        let ghost s2 = self.states;
        self.states.add_output_slot(&p, label, data_type);
        proof {
            assert(s2.outputs(outp@) == self.st().outputs(outp@));
            assert(s1.outputs(p@) == s0.outputs(p@));
            assert(s2.outputs(p@) == s1.outputs(p@));
            assert forall|q: Seq<u128>| q != outp@ && q != p@ implies #[trigger] self.st().outputs(q) == s0.outputs(q) by {
                assert(s2.outputs(q) == s1.outputs(q));
            }
        }
        Ok(())
    }

    /// Removes every edge into the input slot with id `sid`.
    fn remove_edges_into(&mut self, sid: u128)
        requires
            old(self).wf(),
        ensures
            final(self).wf(),
            final(self).st().edge_map().dom() == old(self).st().edge_map().dom().filter(
                |x: u128| old(self).st().edge_map()[x].to_input_slot_id@ != sid,
            ),
            forall|x: u128| #[trigger] final(self).st().edge_map().dom().contains(x) ==> final(self).st().edge_map()[x]
                == old(self).st().edge_map()[x],
            final(self).st().node_map() == old(self).st().node_map(),
            final(self).st().same_slots(&old(self).st()),
            final(self).st().same_children(&old(self).st()),
            final(self).st().changed() == old(self).st().changed().union(
                Self::gone_targets(old(self).st().edge_map(), final(self).st().edge_map().dom()),
            ),
            old(self).st().generation() <= final(self).st().generation(),
            final(self).subgraph_map() == old(self).subgraph_map(),
            final(self).error_map() == old(self).error_map(),
            final(self).removed_ids() == old(self).removed_ids(),
            final(self).st().lists_pruned(&old(self).st()),
            final(self).st().edges_kept_from(&old(self).st()),
    {
        self.remove_edges_where(sid, true)
    }

    /// Removes every edge out of the output slot with id `sid`.
    fn remove_edges_out_of(&mut self, sid: u128)
        requires
            old(self).wf(),
        ensures
            final(self).wf(),
            final(self).st().edge_map().dom() == old(self).st().edge_map().dom().filter(
                |x: u128| old(self).st().edge_map()[x].from_output_slot_id@ != sid,
            ),
            forall|x: u128| #[trigger] final(self).st().edge_map().dom().contains(x) ==> final(self).st().edge_map()[x]
                == old(self).st().edge_map()[x],
            final(self).st().node_map() == old(self).st().node_map(),
            final(self).st().same_slots(&old(self).st()),
            final(self).st().same_children(&old(self).st()),
            final(self).st().changed() == old(self).st().changed().union(
                Self::gone_targets(old(self).st().edge_map(), final(self).st().edge_map().dom()),
            ),
            old(self).st().generation() <= final(self).st().generation(),
            final(self).subgraph_map() == old(self).subgraph_map(),
            final(self).error_map() == old(self).error_map(),
            final(self).removed_ids() == old(self).removed_ids(),
            final(self).st().lists_pruned(&old(self).st()),
            final(self).st().edges_kept_from(&old(self).st()),
    {
        self.remove_edges_where(sid, false)
    }

    /// The nodes entered by the edges of `m` that the id set `now` no
    /// longer holds.
    pub open spec fn gone_targets(m: Map<u128, Edge>, now: Set<u128>) -> Set<Seq<u128>> {
        Set::new(|q: Seq<u128>| exists|x: u128| m.dom().contains(x) && !now.contains(x) && (#[trigger] m[x]).to_node@ == q)
    }

    /// Targets of edges dropped in two steps are those dropped at once.
    proof fn lemma_gone_targets_trans(m0: Map<u128, Edge>, m1: Map<u128, Edge>, d2: Set<u128>)
        requires
            m1.dom().subset_of(m0.dom()),
            d2.subset_of(m1.dom()),
            forall|x: u128| #[trigger] m1.dom().contains(x) ==> m1[x].to_node@ == m0[x].to_node@,
        ensures
            Self::gone_targets(m0, m1.dom()).union(Self::gone_targets(m1, d2)) == Self::gone_targets(m0, d2),
    {
        let a = Self::gone_targets(m0, m1.dom());
        let b = Self::gone_targets(m1, d2);
        let c = Self::gone_targets(m0, d2);
        assert forall|q: Seq<u128>| a.union(b).contains(q) implies c.contains(q) by {
            if a.contains(q) {
                let x = choose|x: u128| m0.dom().contains(x) && !m1.dom().contains(x) && (#[trigger] m0[x]).to_node@ == q;
                assert(m0.dom().contains(x) && !d2.contains(x) && m0[x].to_node@ == q);
            } else {
                let x = choose|x: u128| m1.dom().contains(x) && !d2.contains(x) && (#[trigger] m1[x]).to_node@ == q;
                assert(m0.dom().contains(x) && !d2.contains(x) && m0[x].to_node@ == q);
            }
        }
        assert forall|q: Seq<u128>| c.contains(q) implies a.union(b).contains(q) by {
            let x = choose|x: u128| m0.dom().contains(x) && !d2.contains(x) && (#[trigger] m0[x]).to_node@ == q;
            if m1.dom().contains(x) {
                assert(m1.dom().contains(x) && !d2.contains(x) && m1[x].to_node@ == q);
                assert(b.contains(q));
            } else {
                assert(a.contains(q));
            }
        }
        assert(a.union(b) =~= c);
    }

    /// One step that does nothing, drops edges, or reshapes slots without
    /// moving any edge to another node keeps the account of the nodes marked
    /// changed since `s0`: those marked then, and the targets of the edges
    /// dropped since.
    proof fn lemma_changed_step(s0: &NodeStates<D, V>, prev: &NodeStates<D, V>, next: &NodeStates<D, V>)
        requires
            prev.changed() == s0.changed().union(Self::gone_targets(s0.edge_map(), prev.edge_map().dom())),
            prev.edge_map().dom().subset_of(s0.edge_map().dom()),
            forall|x: u128| #[trigger] prev.edge_map().dom().contains(x) ==> prev.edge_map()[x].to_node@ == s0.edge_map()[x].to_node@,
            *next == *prev || (next.changed() == prev.changed().union(Self::gone_targets(prev.edge_map(), next.edge_map().dom()))
                && next.edge_map().dom().subset_of(prev.edge_map().dom()) && forall|x: u128| #[trigger] next.edge_map().dom().contains(x)
                ==> next.edge_map()[x] == prev.edge_map()[x]) || (next.changed() == prev.changed() && next.edge_map().dom()
                == prev.edge_map().dom() && forall|x: u128| #[trigger] next.edge_map().dom().contains(x)
                ==> next.edge_map()[x].to_node@ == prev.edge_map()[x].to_node@),
        ensures
            next.changed() == s0.changed().union(Self::gone_targets(s0.edge_map(), next.edge_map().dom())),
            next.edge_map().dom().subset_of(s0.edge_map().dom()),
            forall|x: u128| #[trigger] next.edge_map().dom().contains(x) ==> next.edge_map()[x].to_node@ == s0.edge_map()[x].to_node@,
    {
        if *next == *prev {
        } else if next.changed() == prev.changed() && next.edge_map().dom() == prev.edge_map().dom() {
            assert forall|x: u128| #[trigger] next.edge_map().dom().contains(x) implies next.edge_map()[x].to_node@
                == s0.edge_map()[x].to_node@ by {
                assert(prev.edge_map().dom().contains(x));
            }
        } else {
            Self::lemma_gone_targets_trans(s0.edge_map(), prev.edge_map(), next.edge_map().dom());
            assert(next.changed() =~= s0.changed().union(Self::gone_targets(s0.edge_map(), next.edge_map().dom())));
            assert forall|x: u128| #[trigger] next.edge_map().dom().contains(x) implies next.edge_map()[x].to_node@
                == s0.edge_map()[x].to_node@ by {
                assert(prev.edge_map().dom().contains(x));
            }
        }
    }

    /// No edge of `m` is gone while `m` holds them all.
    proof fn lemma_gone_none(m: Map<u128, Edge>)
        ensures
            Self::gone_targets(m, m.dom()) == Set::<Seq<u128>>::empty(),
    {
        assert(Self::gone_targets(m, m.dom()) =~= Set::<Seq<u128>>::empty());
    }

    /// Whether edge `e` touches slot `sid`: as its target when `input`,
    /// as its source otherwise.
    pub open spec fn touches_slot(e: Edge, sid: u128, input: bool) -> bool {
        if input { e.to_input_slot_id@ == sid } else { e.from_output_slot_id@ == sid }
    }

    fn remove_edges_where(&mut self, sid: u128, input: bool)
        requires
            old(self).wf(),
        ensures
            final(self).wf(),
            final(self).st().edge_map().dom() == old(self).st().edge_map().dom().filter(
                |x: u128| !Self::touches_slot(old(self).st().edge_map()[x], sid, input),
            ),
            forall|x: u128| #[trigger] final(self).st().edge_map().dom().contains(x) ==> final(self).st().edge_map()[x]
                == old(self).st().edge_map()[x],
            final(self).st().node_map() == old(self).st().node_map(),
            final(self).st().same_slots(&old(self).st()),
            final(self).st().same_children(&old(self).st()),
            final(self).st().changed() == old(self).st().changed().union(
                Self::gone_targets(old(self).st().edge_map(), final(self).st().edge_map().dom()),
            ),
            old(self).st().generation() <= final(self).st().generation(),
            final(self).subgraph_map() == old(self).subgraph_map(),
            final(self).error_map() == old(self).error_map(),
            final(self).removed_ids() == old(self).removed_ids(),
            final(self).st().lists_pruned(&old(self).st()),
            final(self).st().edges_kept_from(&old(self).st()),
    {
        let edges = self.states.edges();
        let keys = edges.keys();
        let ghost om = old(self).st().edge_map();
        proof {
            edges.lemma_entries();
            assert forall|j: int, k: int| 0 <= j < keys@.len() && 0 <= k < keys@.len() && j != k implies (#[trigger] keys@[j])@ != (#[trigger] keys@[k])@ by {
                assert(keys@[j]@ == edges.key_at(j));
                assert(keys@[k]@ == edges.key_at(k));
            }
            assert forall|x: u128| om.dom().contains(x) implies exists|j: int| 0 <= j < keys@.len() && (#[trigger] keys@[j])@ == x by {
                let j = choose|j: int| 0 <= j < edges.spec_len() && #[trigger] edges.key_at(j) == x;
                assert(keys@[j]@ == x);
            }
            assert forall|x: u128| (exists|j: int| 0 <= j < keys@.len() && (#[trigger] keys@[j])@ == x) implies om.dom().contains(x) by {
                let j = choose|j: int| 0 <= j < keys@.len() && (#[trigger] keys@[j])@ == x;
                assert(keys@[j]@ == edges.key_at(j));
            }
            self.st().lemma_pruned_refl();
            assert(Self::gone_targets(om, om.dom()) =~= Set::<Seq<u128>>::empty());
            assert(self.st().changed().union(Self::gone_targets(om, om.dom())) =~= self.st().changed());
        }
        let mut i: usize = 0;
        while i < keys.len()
            invariant
                self.wf(),
                om == old(self).st().edge_map(),
                i <= keys@.len(),
                forall|j: int, k: int| 0 <= j < keys@.len() && 0 <= k < keys@.len() && j != k ==> (#[trigger] keys@[j])@ != (#[trigger] keys@[k])@,
                forall|x: u128| om.dom().contains(x) <==> exists|j: int| 0 <= j < keys@.len() && (#[trigger] keys@[j])@ == x,
                forall|x: u128| #[trigger] self.st().edge_map().dom().contains(x) <==> (om.dom().contains(x) && !(
                    (exists|j: int| 0 <= j < i && (#[trigger] keys@[j])@ == x) && Self::touches_slot(om[x], sid, input))),
                forall|x: u128| #[trigger] self.st().edge_map().dom().contains(x) ==> self.st().edge_map()[x] == om[x],
                self.st().node_map() == old(self).st().node_map(),
                self.st().same_slots(&old(self).st()),
                self.st().same_children(&old(self).st()),
                self.st().changed() == old(self).st().changed().union(Self::gone_targets(om, self.st().edge_map().dom())),
                old(self).st().generation() <= self.st().generation(),
                self.subgraphs == old(self).subgraphs,
                self.errors == old(self).errors,
                self.removed == old(self).removed,
                self.st().lists_pruned(&old(self).st()),
                self.st().edges_kept_from(&old(self).st()),
            decreases keys@.len() - i,
        {
            let k = keys[i];
            let hit = match self.states.get_edge(&k) {
                None => false,
                Some(e) => if input { e.to_input_slot_id.0 == sid } else { e.from_output_slot_id.0 == sid },
            };
            let ghost pre = self.st();
            if hit {
                let gone = self.states.remove_edge(&k);
                proof {
                    assert(gone is Some);
                    NodeStates::<D, V>::lemma_prune_step(&old(self).st(), &pre, &self.st(), k@);
                    assert(pre.edge_map()[k@] == om[k@]);
                    let before = Self::gone_targets(om, pre.edge_map().dom());
                    let after = Self::gone_targets(om, self.st().edge_map().dom());
                    assert(self.st().edge_map().dom() =~= pre.edge_map().dom().remove(k@));
                    assert forall|q: Seq<u128>| after.contains(q) <==> before.insert(om[k@].to_node@).contains(q) by {
                        if after.contains(q) && q != om[k@].to_node@ {
                            let x = choose|x: u128| om.dom().contains(x) && !self.st().edge_map().dom().contains(x) && (#[trigger] om[x]).to_node@ == q;
                            assert(x != k@);
                            assert(before.contains(q));
                        }
                        if before.contains(q) {
                            let x = choose|x: u128| om.dom().contains(x) && !pre.edge_map().dom().contains(x) && (#[trigger] om[x]).to_node@ == q;
                            assert(after.contains(q));
                        }
                        if q == om[k@].to_node@ {
                            assert(om.dom().contains(k@) && !self.st().edge_map().dom().contains(k@) && om[k@].to_node@ == q);
                        }
                    }
                    assert(after =~= before.insert(om[k@].to_node@));
                    assert(self.st().changed() =~= old(self).st().changed().union(after));
                }
            }
            proof {
                assert forall|x: u128| #[trigger] self.st().edge_map().dom().contains(x) <==> (om.dom().contains(x) && !(
                    (exists|j: int| 0 <= j < i + 1 && (#[trigger] keys@[j])@ == x) && Self::touches_slot(om[x], sid, input))) by {
                    if x == k@ {
                        assert(keys@[i as int]@ == x);
                    } else if exists|j: int| 0 <= j < i + 1 && (#[trigger] keys@[j])@ == x {
                        let j = choose|j: int| 0 <= j < i + 1 && (#[trigger] keys@[j])@ == x;
                        assert(j != i);
                    }
                }
            }
            i = i + 1;
        }
        proof {
            assert(self.st().edge_map().dom() =~= om.dom().filter(|x: u128| !Self::touches_slot(om[x], sid, input))) by {
                assert forall|x: u128| om.dom().contains(x) implies exists|j: int| 0 <= j < i && (#[trigger] keys@[j])@ == x by {
                    let j = choose|j: int| 0 <= j < keys@.len() && (#[trigger] keys@[j])@ == x;
                }
            }
        }
    }

    /// A step that either changed nothing or pruned the lists.
    proof fn lemma_pruned_or_same(prev: &NodeStates<D, V>, next: &NodeStates<D, V>)
        requires
            *next == *prev || (next.lists_pruned(prev) && next.edges_kept_from(prev)),
        ensures
            next.lists_pruned(prev),
            next.edges_kept_from(prev),
    {
        if *next == *prev {
            prev.lemma_pruned_refl();
        }
    }

    /// A slot removal moves edge indices only: no list is pruned.
    proof fn lemma_reshape_keeps_lists(prev: &NodeStates<D, V>, next: &NodeStates<D, V>, p: Seq<u128>, i: int, target: bool)
        requires
            *next == *prev || (next.edge_map().dom() == prev.edge_map().dom() && next.same_edge_indexes(prev)
                && forall|x: u128| #[trigger] next.edge_map().dom().contains(x) ==> next.edge_map()[x] == if target {
                    shift_target_down(prev.edge_map()[x], p, i)
                } else {
                    shift_source_down(prev.edge_map()[x], p, i)
                }),
        ensures
            next.lists_pruned(prev),
            next.edges_kept_from(prev),
    {
        if *next == *prev {
            prev.lemma_pruned_refl();
        } else {
            assert forall|x: u128| #[trigger] next.edge_map().dom().contains(x) implies same_ends(next.edge_map()[x], prev.edge_map()[x]) by {}
            NodeStates::<D, V>::lemma_pruned_when_unchanged(prev, next);
        }
    }

    /// The outcome of `remove_subgraph_input`, leaving `next` and answering `r`.
    pub open spec fn input_port_removal(&self, next: &Self, node_id: NodeId, index: usize, r: Result<(), String>) -> bool {
        &&& next.subgraph_map() == self.subgraph_map()
        &&& next.error_map() == self.error_map()
        &&& next.removed_ids() == self.removed_ids()
        &&& {
                let sg = seq![node_id@];
                let st = self.st();
                if !self.subgraph_map().dom().contains(sg) {
                    r matches Err(m) && m@ == not_subgraph_text(node_id@) && *next == *self
                } else {
                    let inp = sg.push(self.subgraph_map()[sg].input_proxy_id@);
                    let i = index as int;
                    let a = i < st.inputs(inp).len();
                    let b = i < st.outputs(inp).len();
                    let c = i < st.inputs(sg).len();
                    &&& r is Ok
                    &&& slot_dropped(next.st().inputs(inp), st.inputs(inp), i)
                    &&& slot_dropped(next.st().outputs(inp), st.outputs(inp), i)
                    &&& slot_dropped(next.st().inputs(sg), st.inputs(sg), i)
                    &&& forall|q: Seq<u128>| q != inp && q != sg ==> #[trigger] next.st().inputs(q) == st.inputs(q)
                    &&& forall|q: Seq<u128>| q != inp ==> #[trigger] next.st().outputs(q) == st.outputs(q)
                    &&& next.st().edge_map().dom() == st.edge_map().dom().filter(|x: u128| !(
                        (a && st.edge_map()[x].to_input_slot_id@ == st.inputs(inp)[i].id@)
                        || (b && st.edge_map()[x].from_output_slot_id@ == st.outputs(inp)[i].id@)
                        || (c && st.edge_map()[x].to_input_slot_id@ == st.inputs(sg)[i].id@)))
                    &&& forall|x: u128| #[trigger] next.st().edge_map().dom().contains(x) ==> next.st().edge_map()[x]
                        == shifted_after_port_removal(st.edge_map()[x], inp, sg, i, a, b, c, true)
                    &&& next.st().node_map() == st.node_map()
                    &&& next.st().same_children(&st)
                    &&& next.st().changed() == st.changed().union(Self::gone_targets(st.edge_map(), next.st().edge_map().dom()))
                    &&& st.generation() <= next.st().generation()
                    &&& next.st().lists_pruned(&st)
                    &&& a || b || c ==> advanced(st.generation(), next.st().generation())
                    &&& !(a || b || c) ==> *next == *self
                }
}
    }

    /// Removes input port `index` of the root-level SubGraph `node_id`:
    /// the edges into and out of the proxy's port and into the external
    /// slot go first, then the three slots; indices above them move down.
    pub fn remove_subgraph_input(&mut self, node_id: &NodeId, index: usize) -> (r: Result<(), String>)
        requires
            old(self).wf(),
        ensures
            final(self).wf(),
            old(self).input_port_removal(&*final(self), *node_id, index, r),
    {
        let p = NodePath::root().child(*node_id);
        assert(p@ =~= seq![node_id@]);
        let inp = match self.subgraphs.get(&p) {
            None => {
                return Err(Self::not_subgraph(node_id));
            },
            Some(sg) => p.child(sg.input_proxy_id),
        };
        assert(inp@ != p@) by {
            assert(inp@.len() != p@.len());
        }
        let ghost s0 = self.st();
        match self.states.input_slot(&inp, index) {
            Some(slot) => {
                let sid = slot.id.0;
                self.remove_edges_into(sid);
            },
            None => {},
        }
        let ghost s1 = self.st();
        proof {
            Self::lemma_pruned_or_same(&s0, &s1);
            Self::lemma_gone_none(s0.edge_map());
            assert(s0.changed().union(Set::<Seq<u128>>::empty()) =~= s0.changed());
            Self::lemma_changed_step(&s0, &s0, &s1);
        }
        match self.states.output_slot(&inp, index) {
            Some(slot) => {
                let sid = slot.id.0;
                self.remove_edges_out_of(sid);
            },
            None => {},
        }
        let ghost s2 = self.st();
        proof {
            Self::lemma_pruned_or_same(&s1, &s2);
            Self::lemma_changed_step(&s0, &s1, &s2);
            NodeStates::<D, V>::lemma_pruned_trans(&s0, &s1, &s2);
        }
        self.states.remove_input_slot(&inp, index);
        let ghost s3 = self.st();
        proof {
            Self::lemma_reshape_keeps_lists(&s2, &s3, inp@, index as int, true);
            Self::lemma_changed_step(&s0, &s2, &s3);
            NodeStates::<D, V>::lemma_pruned_trans(&s0, &s2, &s3);
        }
        self.states.remove_output_slot(&inp, index);
        let ghost s4 = self.st();
        proof {
            Self::lemma_reshape_keeps_lists(&s3, &s4, inp@, index as int, false);
            Self::lemma_changed_step(&s0, &s3, &s4);
            NodeStates::<D, V>::lemma_pruned_trans(&s0, &s3, &s4);
        }
        match self.states.input_slot(&p, index) {
            Some(slot) => {
                let sid = slot.id.0;
                self.remove_edges_into(sid);
            },
            None => {},
        }
        let ghost s5 = self.st();
        proof {
            Self::lemma_pruned_or_same(&s4, &s5);
            Self::lemma_changed_step(&s0, &s4, &s5);
            NodeStates::<D, V>::lemma_pruned_trans(&s0, &s4, &s5);
        }
        self.states.remove_input_slot(&p, index);
        proof {
            Self::lemma_reshape_keeps_lists(&s5, &self.st(), p@, index as int, true);
            Self::lemma_changed_step(&s0, &s5, &self.st());
            NodeStates::<D, V>::lemma_pruned_trans(&s0, &s5, &self.st());
        }
        proof {
            let i = index as int;
            let a = i < s0.inputs(inp@).len();
            let b = i < s0.outputs(inp@).len();
            let c = i < s0.inputs(p@).len();
            assert(s2.inputs(inp@) == s0.inputs(inp@));
            assert(s2.outputs(inp@) == s0.outputs(inp@));
            assert(s4.inputs(p@) == s0.inputs(p@)) by {
                assert(s3.inputs(p@) == s2.inputs(p@));
            }
            let em = s0.edge_map();
            assert forall|x: u128| s4.edge_map().dom().contains(x) implies s4.edge_map()[x].to_input_slot_id == em[x].to_input_slot_id
                && s4.edge_map()[x].from_output_slot_id == em[x].from_output_slot_id && s2.edge_map().dom().contains(x) by {
                assert(s3.edge_map().dom().contains(x));
                assert(s2.edge_map().dom().contains(x));
                assert(s1.edge_map().dom().contains(x));
            }
            assert forall|x: u128| self.st().edge_map().dom().contains(x) <==> (em.dom().contains(x) && !(
                (a && em[x].to_input_slot_id@ == s0.inputs(inp@)[i].id@)
                || (b && em[x].from_output_slot_id@ == s0.outputs(inp@)[i].id@)
                || (c && em[x].to_input_slot_id@ == s0.inputs(p@)[i].id@))) by {
                assert(self.st().edge_map().dom().contains(x) == s5.edge_map().dom().contains(x));
                if s2.edge_map().dom().contains(x) {
                    assert(s1.edge_map().dom().contains(x));
                    assert(s4.edge_map().dom().contains(x));
                    assert(s4.edge_map()[x].to_input_slot_id == em[x].to_input_slot_id);
                }
                if em.dom().contains(x) && !(a && em[x].to_input_slot_id@ == s0.inputs(inp@)[i].id@)
                    && !(b && em[x].from_output_slot_id@ == s0.outputs(inp@)[i].id@) {
                    assert(s1.edge_map().dom().contains(x));
                    assert(s2.edge_map().dom().contains(x));
                    assert(s3.edge_map().dom().contains(x));
                    assert(s4.edge_map().dom().contains(x));
                }
            }
            assert(self.st().edge_map().dom() =~= em.dom().filter(|x: u128| !(
                (a && em[x].to_input_slot_id@ == s0.inputs(inp@)[i].id@)
                || (b && em[x].from_output_slot_id@ == s0.outputs(inp@)[i].id@)
                || (c && em[x].to_input_slot_id@ == s0.inputs(p@)[i].id@))));
        }
        Ok(())
    }

    /// The outcome of `remove_subgraph_output`, leaving `next` and answering `r`.
    pub open spec fn output_port_removal(&self, next: &Self, node_id: NodeId, index: usize, r: Result<(), String>) -> bool {
        &&& next.subgraph_map() == self.subgraph_map()
        &&& next.error_map() == self.error_map()
        &&& next.removed_ids() == self.removed_ids()
        &&& {
                let sg = seq![node_id@];
                let st = self.st();
                if !self.subgraph_map().dom().contains(sg) {
                    r matches Err(m) && m@ == not_subgraph_text(node_id@) && *next == *self
                } else {
                    let inp = sg.push(self.subgraph_map()[sg].output_proxy_id@);
                    let i = index as int;
                    let a = i < st.inputs(inp).len();
                    let b = i < st.outputs(inp).len();
                    let c = i < st.outputs(sg).len();
                    &&& r is Ok
                    &&& slot_dropped(next.st().inputs(inp), st.inputs(inp), i)
                    &&& slot_dropped(next.st().outputs(inp), st.outputs(inp), i)
                    &&& slot_dropped(next.st().outputs(sg), st.outputs(sg), i)
                    &&& forall|q: Seq<u128>| q != inp ==> #[trigger] next.st().inputs(q) == st.inputs(q)
                    &&& forall|q: Seq<u128>| q != inp && q != sg ==> #[trigger] next.st().outputs(q) == st.outputs(q)
                    &&& next.st().edge_map().dom() == st.edge_map().dom().filter(|x: u128| !(
                        (a && st.edge_map()[x].to_input_slot_id@ == st.inputs(inp)[i].id@)
                        || (b && st.edge_map()[x].from_output_slot_id@ == st.outputs(inp)[i].id@)
                        || (c && st.edge_map()[x].from_output_slot_id@ == st.outputs(sg)[i].id@)))
                    &&& forall|x: u128| #[trigger] next.st().edge_map().dom().contains(x) ==> next.st().edge_map()[x]
                        == shifted_after_port_removal(st.edge_map()[x], inp, sg, i, a, b, c, false)
                    &&& next.st().node_map() == st.node_map()
                    &&& next.st().same_children(&st)
                    &&& next.st().changed() == st.changed().union(Self::gone_targets(st.edge_map(), next.st().edge_map().dom()))
                    &&& st.generation() <= next.st().generation()
                    &&& next.st().lists_pruned(&st)
                    &&& a || b || c ==> advanced(st.generation(), next.st().generation())
                    &&& !(a || b || c) ==> *next == *self
                }
}
    }

    /// Removes output port `index` of the root-level SubGraph `node_id`:
    /// the edges into and out of the proxy's port and out of the external
    /// slot go first, then the three slots; indices above them move down.
    pub fn remove_subgraph_output(&mut self, node_id: &NodeId, index: usize) -> (r: Result<(), String>)
        requires
            old(self).wf(),
        ensures
            final(self).wf(),
            old(self).output_port_removal(&*final(self), *node_id, index, r),
    {
        let p = NodePath::root().child(*node_id);
        assert(p@ =~= seq![node_id@]);
        let inp = match self.subgraphs.get(&p) {
            None => {
                return Err(Self::not_subgraph(node_id));
            },
            Some(sg) => p.child(sg.output_proxy_id),
        };
        assert(inp@ != p@) by {
            assert(inp@.len() != p@.len());
        }
        let ghost s0 = self.st();
        match self.states.input_slot(&inp, index) {
            Some(slot) => {
                let sid = slot.id.0;
                self.remove_edges_into(sid);
            },
            None => {},
        }
        let ghost s1 = self.st();
        proof {
            Self::lemma_pruned_or_same(&s0, &s1);
            Self::lemma_gone_none(s0.edge_map());
            assert(s0.changed().union(Set::<Seq<u128>>::empty()) =~= s0.changed());
            Self::lemma_changed_step(&s0, &s0, &s1);
        }
        match self.states.output_slot(&inp, index) {
            Some(slot) => {
                let sid = slot.id.0;
                self.remove_edges_out_of(sid);
            },
            None => {},
        }
        let ghost s2 = self.st();
        proof {
            Self::lemma_pruned_or_same(&s1, &s2);
            Self::lemma_changed_step(&s0, &s1, &s2);
            NodeStates::<D, V>::lemma_pruned_trans(&s0, &s1, &s2);
        }
        self.states.remove_input_slot(&inp, index);
        let ghost s3 = self.st();
        proof {
            Self::lemma_reshape_keeps_lists(&s2, &s3, inp@, index as int, true);
            Self::lemma_changed_step(&s0, &s2, &s3);
            NodeStates::<D, V>::lemma_pruned_trans(&s0, &s2, &s3);
        }
        self.states.remove_output_slot(&inp, index);
        let ghost s4 = self.st();
        proof {
            Self::lemma_reshape_keeps_lists(&s3, &s4, inp@, index as int, false);
            Self::lemma_changed_step(&s0, &s3, &s4);
            NodeStates::<D, V>::lemma_pruned_trans(&s0, &s3, &s4);
        }
        match self.states.output_slot(&p, index) {
            Some(slot) => {
                let sid = slot.id.0;
                self.remove_edges_out_of(sid);
            },
            None => {},
        }
        let ghost s5 = self.st();
        proof {
            Self::lemma_pruned_or_same(&s4, &s5);
            Self::lemma_changed_step(&s0, &s4, &s5);
            NodeStates::<D, V>::lemma_pruned_trans(&s0, &s4, &s5);
        }
        self.states.remove_output_slot(&p, index);
        proof {
            Self::lemma_reshape_keeps_lists(&s5, &self.st(), p@, index as int, false);
            Self::lemma_changed_step(&s0, &s5, &self.st());
            NodeStates::<D, V>::lemma_pruned_trans(&s0, &s5, &self.st());
        }
        proof {
            let i = index as int;
            let a = i < s0.inputs(inp@).len();
            let b = i < s0.outputs(inp@).len();
            let c = i < s0.outputs(p@).len();
            assert(s2.inputs(inp@) == s0.inputs(inp@));
            assert(s2.outputs(inp@) == s0.outputs(inp@));
            assert(s4.outputs(p@) == s0.outputs(p@)) by {
                assert(s3.outputs(p@) == s2.outputs(p@));
            }
            let em = s0.edge_map();
            assert forall|x: u128| s4.edge_map().dom().contains(x) implies s4.edge_map()[x].to_input_slot_id == em[x].to_input_slot_id
                && s4.edge_map()[x].from_output_slot_id == em[x].from_output_slot_id && s2.edge_map().dom().contains(x) by {
                assert(s3.edge_map().dom().contains(x));
                assert(s2.edge_map().dom().contains(x));
                assert(s1.edge_map().dom().contains(x));
            }
            assert forall|x: u128| self.st().edge_map().dom().contains(x) <==> (em.dom().contains(x) && !(
                (a && em[x].to_input_slot_id@ == s0.inputs(inp@)[i].id@)
                || (b && em[x].from_output_slot_id@ == s0.outputs(inp@)[i].id@)
                || (c && em[x].from_output_slot_id@ == s0.outputs(p@)[i].id@))) by {
                assert(self.st().edge_map().dom().contains(x) == s5.edge_map().dom().contains(x));
                if s2.edge_map().dom().contains(x) {
                    assert(s1.edge_map().dom().contains(x));
                    assert(s4.edge_map().dom().contains(x));
                    assert(s4.edge_map()[x].from_output_slot_id == em[x].from_output_slot_id);
                }
                if em.dom().contains(x) && !(a && em[x].to_input_slot_id@ == s0.inputs(inp@)[i].id@)
                    && !(b && em[x].from_output_slot_id@ == s0.outputs(inp@)[i].id@) {
                    assert(s1.edge_map().dom().contains(x));
                    assert(s2.edge_map().dom().contains(x));
                    assert(s3.edge_map().dom().contains(x));
                    assert(s4.edge_map().dom().contains(x));
                }
            }
            assert(self.st().edge_map().dom() =~= em.dom().filter(|x: u128| !(
                (a && em[x].to_input_slot_id@ == s0.inputs(inp@)[i].id@)
                || (b && em[x].from_output_slot_id@ == s0.outputs(inp@)[i].id@)
                || (c && em[x].from_output_slot_id@ == s0.outputs(p@)[i].id@))));
        }
        Ok(())
    }


    /// Removes the input port labelled `label` (the first one) of the
    /// root-level SubGraph `node_id`, as `remove_subgraph_input` does for
    /// its index, which is returned.
    pub fn remove_subgraph_input_by_label(&mut self, node_id: &NodeId, label: &str) -> (r: Result<usize, String>)
        requires
            old(self).wf(),
        ensures
            final(self).wf(),
            ({
                let sg = seq![node_id@];
                if !old(self).subgraph_map().dom().contains(sg) {
                    r matches Err(m) && m@ == not_subgraph_text(node_id@) && *final(self) == *old(self)
                } else {
                    let inp = sg.push(old(self).subgraph_map()[sg].input_proxy_id@);
                    let i = port_index(old(self).st().inputs(inp), label@);
                    if i < 0 {
                        r matches Err(m) && m@ == "Input label "@ + str_debug_text(label@) + " not found"@ && *final(self) == *old(self)
                    } else {
                        r == Ok::<usize, String>(i as usize) && old(self).input_port_removal(&*final(self), *node_id, i as usize, Ok(()))
                    }
                }
            }),
    {
        let p = NodePath::root().child(*node_id);
        assert(p@ =~= seq![node_id@]);
        let inp = match self.subgraphs.get(&p) {
            None => {
                return Err(Self::not_subgraph(node_id));
            },
            Some(sg) => p.child(sg.input_proxy_id),
        };
        let i = match self.find_label(&inp, label) {
            None => {
                let d = str_debug(label);
                return Err(concat3("Input label ", d.as_str(), " not found"));
            },
            Some(i) => i,
        };
        let r = self.remove_subgraph_input(node_id, i);
        Ok(i)
    }

    /// Removes the output port labelled `label` (the first one, among the
    /// output proxy's input slots) of the root-level SubGraph `node_id`,
    /// as `remove_subgraph_output` does for its index, which is returned.
    pub fn remove_subgraph_output_by_label(&mut self, node_id: &NodeId, label: &str) -> (r: Result<usize, String>)
        requires
            old(self).wf(),
        ensures
            final(self).wf(),
            ({
                let sg = seq![node_id@];
                if !old(self).subgraph_map().dom().contains(sg) {
                    r matches Err(m) && m@ == not_subgraph_text(node_id@) && *final(self) == *old(self)
                } else {
                    let outp = sg.push(old(self).subgraph_map()[sg].output_proxy_id@);
                    let i = port_index(old(self).st().inputs(outp), label@);
                    if i < 0 {
                        r matches Err(m) && m@ == "Output label "@ + str_debug_text(label@) + " not found"@ && *final(self) == *old(self)
                    } else {
                        r == Ok::<usize, String>(i as usize) && old(self).output_port_removal(&*final(self), *node_id, i as usize, Ok(()))
                    }
                }
            }),
    {
        let p = NodePath::root().child(*node_id);
        assert(p@ =~= seq![node_id@]);
        let outp = match self.subgraphs.get(&p) {
            None => {
                return Err(Self::not_subgraph(node_id));
            },
            Some(sg) => p.child(sg.output_proxy_id),
        };
        let i = match self.find_label(&outp, label) {
            None => {
                let d = str_debug(label);
                return Err(concat3("Output label ", d.as_str(), " not found"));
            },
            Some(i) => i,
        };
        let r = self.remove_subgraph_output(node_id, i);
        Ok(i)
    }

    /// The first input slot at `p` labelled `label`.
    fn find_label(&self, p: &NodePath, label: &str) -> (r: Option<usize>)
        requires
            self.wf(),
        ensures
            match r {
                Some(i) => port_index(self.st().inputs(p@), label@) == i,
                None => port_index(self.st().inputs(p@), label@) == -1,
            },
    {
        let n = self.states.input_slot_count(p);
        let ghost sl = self.st().inputs(p@);
        let mut i: usize = 0;
        proof {
            assert(sl.subrange(0, 0) =~= Seq::<InputSlotState<V>>::empty());
        }
        while i < n
            invariant
                self.wf(),
                sl == self.st().inputs(p@),
                n == sl.len(),
                i <= n,
                port_index(sl.subrange(0, i as int), label@) == -1,
            decreases n - i,
        {
            let s = self.states.input_slot(p, i);
            let hit = match s {
                Some(slot) => str_eq(slot.label, label),
                None => false,
            };
            proof {
                let t = sl.subrange(0, i + 1);
                assert(t.drop_last() =~= sl.subrange(0, i as int));
                assert(t.last() == sl[i as int]);
            }
            if hit {
                proof {
                    lemma_port_index_prefix(sl, label@, i + 1);
                }
                return Some(i);
            }
            i = i + 1;
        }
        assert(sl.subrange(0, n as int) =~= sl);
        None
    }

    /// Renames the input port labelled `old_label` of the root-level
    /// SubGraph `node_id` to `new_label`: on both sides of the proxy port
    /// and on the external slot; slot ids are kept so edges survive. The
    /// port index is returned.
    pub fn rename_subgraph_input(&mut self, node_id: &NodeId, old_label: &str, new_label: &'static str) -> (r: Result<usize, String>)
        requires
            old(self).wf(),
        ensures
            final(self).wf(),
            final(self).subgraph_map() == old(self).subgraph_map(),
            final(self).error_map() == old(self).error_map(),
            final(self).removed_ids() == old(self).removed_ids(),
            ({
                let sg = seq![node_id@];
                let st = old(self).st();
                if !old(self).subgraph_map().dom().contains(sg) {
                    r matches Err(m) && m@ == not_subgraph_text(node_id@) && *final(self) == *old(self)
                } else {
                    let inp = sg.push(old(self).subgraph_map()[sg].input_proxy_id@);
                    let i = port_index(st.inputs(inp), old_label@);
                    if port_index(st.inputs(inp), new_label@) >= 0 && old_label@ != new_label@ {
                        r matches Err(m) && m@ == "Input label "@ + str_debug_text(new_label@) + " already exists (uniqueness)"@
                            && *final(self) == *old(self)
                    } else if i < 0 {
                        r matches Err(m) && m@ == "Input label "@ + str_debug_text(old_label@) + " not found"@ && *final(self) == *old(self)
                    } else {
                        &&& r == Ok::<usize, String>(i as usize)
                        &&& final(self).st().inputs(inp) == st.inputs(inp).update(i, InputSlotState { label: new_label, ..st.inputs(inp)[i] })
                        &&& final(self).st().outputs(inp) == if i < st.outputs(inp).len() {
                            st.outputs(inp).update(i, OutputSlotState { label: new_label, ..st.outputs(inp)[i] })
                        } else {
                            st.outputs(inp)
                        }
                        &&& final(self).st().inputs(sg) == if i < st.inputs(sg).len() {
                            st.inputs(sg).update(i, InputSlotState { label: new_label, ..st.inputs(sg)[i] })
                        } else {
                            st.inputs(sg)
                        }
                        &&& forall|q: Seq<u128>| q != inp && q != sg ==> #[trigger] final(self).st().inputs(q) == st.inputs(q)
                        &&& forall|q: Seq<u128>| q != inp ==> #[trigger] final(self).st().outputs(q) == st.outputs(q)
                        &&& final(self).st().node_map() == st.node_map()
                        &&& same_wiring(&final(self).st(), &st)
                        &&& final(self).st().changed() == st.changed()
                        &&& advanced(st.generation(), final(self).st().generation())
                    }
                }
            }),
    {
        let p = NodePath::root().child(*node_id);
        assert(p@ =~= seq![node_id@]);
        let inp = match self.subgraphs.get(&p) {
            None => {
                return Err(Self::not_subgraph(node_id));
            },
            Some(sg) => p.child(sg.input_proxy_id),
        };
        assert(inp@ != p@) by {
            assert(inp@.len() != p@.len());
        }
        if self.find_label(&inp, new_label).is_some() && !str_eq(old_label, new_label) {
            let d = str_debug(new_label);
            return Err(concat3("Input label ", d.as_str(), " already exists (uniqueness)"));
        }
        let i = match self.find_label(&inp, old_label) {
            None => {
                let d = str_debug(old_label);
                return Err(concat3("Input label ", d.as_str(), " not found"));
            },
            Some(i) => i,
        };
        proof {
            lemma_port_index(old(self).st().inputs(inp@), old_label@);
        }
        let ghost s0 = self.st();
        self.states.set_input_slot_label(&inp, i, new_label);
        let ghost s1 = self.st();
        self.states.set_output_slot_label(&inp, i, new_label);
        let ghost s2 = self.st();
        self.states.set_input_slot_label(&p, i, new_label);
        proof {
            assert(s2.inputs(p@) == s0.inputs(p@));
            assert(self.st().inputs(inp@) == s1.inputs(inp@));
            assert(s2.outputs(inp@) == self.st().outputs(inp@));
            assert forall|q: Seq<u128>| q != inp@ && q != p@ implies #[trigger] self.st().inputs(q) == s0.inputs(q) by {
                assert(s2.inputs(q) == s1.inputs(q));
            }
        }
        Ok(i)
    }

    /// Renames the output port labelled `old_label` (among the output
    /// proxy's input slots) of the root-level SubGraph `node_id` to
    /// `new_label`: on both sides of the proxy port and on the external
    /// output slot. The port index is returned.
    pub fn rename_subgraph_output(&mut self, node_id: &NodeId, old_label: &str, new_label: &'static str) -> (r: Result<usize, String>)
        requires
            old(self).wf(),
        ensures
            final(self).wf(),
            final(self).subgraph_map() == old(self).subgraph_map(),
            final(self).error_map() == old(self).error_map(),
            final(self).removed_ids() == old(self).removed_ids(),
            ({
                let sg = seq![node_id@];
                let st = old(self).st();
                if !old(self).subgraph_map().dom().contains(sg) {
                    r matches Err(m) && m@ == not_subgraph_text(node_id@) && *final(self) == *old(self)
                } else {
                    let outp = sg.push(old(self).subgraph_map()[sg].output_proxy_id@);
                    let i = port_index(st.inputs(outp), old_label@);
                    if port_index(st.inputs(outp), new_label@) >= 0 && old_label@ != new_label@ {
                        r matches Err(m) && m@ == "Output label "@ + str_debug_text(new_label@) + " already exists (uniqueness)"@
                            && *final(self) == *old(self)
                    } else if i < 0 {
                        r matches Err(m) && m@ == "Output label "@ + str_debug_text(old_label@) + " not found"@ && *final(self) == *old(self)
                    } else {
                        &&& r == Ok::<usize, String>(i as usize)
                        &&& final(self).st().inputs(outp) == st.inputs(outp).update(i, InputSlotState { label: new_label, ..st.inputs(outp)[i] })
                        &&& final(self).st().outputs(outp) == if i < st.outputs(outp).len() {
                            st.outputs(outp).update(i, OutputSlotState { label: new_label, ..st.outputs(outp)[i] })
                        } else {
                            st.outputs(outp)
                        }
                        &&& final(self).st().outputs(sg) == if i < st.outputs(sg).len() {
                            st.outputs(sg).update(i, OutputSlotState { label: new_label, ..st.outputs(sg)[i] })
                        } else {
                            st.outputs(sg)
                        }
                        &&& forall|q: Seq<u128>| q != outp ==> #[trigger] final(self).st().inputs(q) == st.inputs(q)
                        &&& forall|q: Seq<u128>| q != outp && q != sg ==> #[trigger] final(self).st().outputs(q) == st.outputs(q)
                        &&& final(self).st().node_map() == st.node_map()
                        &&& same_wiring(&final(self).st(), &st)
                        &&& final(self).st().changed() == st.changed()
                        &&& advanced(st.generation(), final(self).st().generation())
                    }
                }
            }),
    {
        let p = NodePath::root().child(*node_id);
        assert(p@ =~= seq![node_id@]);
        let outp = match self.subgraphs.get(&p) {
            None => {
                return Err(Self::not_subgraph(node_id));
            },
            Some(sg) => p.child(sg.output_proxy_id),
        };
        assert(outp@ != p@) by {
            assert(outp@.len() != p@.len());
        }
        if self.find_label(&outp, new_label).is_some() && !str_eq(old_label, new_label) {
            let d = str_debug(new_label);
            return Err(concat3("Output label ", d.as_str(), " already exists (uniqueness)"));
        }
        let i = match self.find_label(&outp, old_label) {
            None => {
                let d = str_debug(old_label);
                return Err(concat3("Output label ", d.as_str(), " not found"));
            },
            Some(i) => i,
        };
        proof {
            lemma_port_index(old(self).st().inputs(outp@), old_label@);
        }
        let ghost s0 = self.st();
        self.states.set_input_slot_label(&outp, i, new_label);
        let ghost s1 = self.st();
        self.states.set_output_slot_label(&outp, i, new_label);
        let ghost s2 = self.st();
        self.states.set_output_slot_label(&p, i, new_label);
        proof {
            assert(s1.outputs(p@) == s0.outputs(p@));
            assert(s2.outputs(p@) == s1.outputs(p@));
            assert(self.st().inputs(outp@) == s1.inputs(outp@));
            assert(s2.outputs(outp@) == self.st().outputs(outp@));
            assert forall|q: Seq<u128>| q != outp@ && q != p@ implies #[trigger] self.st().outputs(q) == s0.outputs(q) by {
                assert(s2.outputs(q) == s1.outputs(q));
            }
        }
        Ok(i)
    }


    fn out_of_range(op: &str, index: usize, count: usize) -> (r: String)
        ensures
            r@ == out_of_range_text(op@, index, count as nat),
    {
        let mut m = String::from_str(op);
        m.append(": index ");
        let d = decimal_string(index as u128);
        m.append(d.as_str());
        m.append(" out of range (count ");
        let c = decimal_string(count as u128);
        m.append(c.as_str());
        m.append(")");
        m
    }

    /// The outcome of `insert_subgraph_input_at`, leaving `next` and answering `r`.
    pub open spec fn input_port_inserted(&self, next: &Self, node_id: NodeId, index: usize, label: &'static str, data_type: DataType,
        r: Result<(), String>) -> bool {
        &&& next.subgraph_map() == self.subgraph_map()
        &&& next.error_map() == self.error_map()
        &&& next.removed_ids() == self.removed_ids()
        &&& {
            let sg = seq![node_id@];
            let st = self.st();
            if !self.subgraph_map().dom().contains(sg) {
                r matches Err(m) && m@ == not_subgraph_text(node_id@) && *next == *self
            } else {
                let inp = sg.push(self.subgraph_map()[sg].input_proxy_id@);
                let i = index as int;
                let j = clamp(i, st.outputs(inp));
                let k = clamp(i, st.inputs(sg));
                if i > st.inputs(inp).len() {
                    r matches Err(m) && m@ == out_of_range_text("insert_subgraph_input_at"@, index, st.inputs(inp).len())
                        && *next == *self
                } else {
                    &&& r is Ok
                    &&& put_at(next.st().inputs(inp), st.inputs(inp), i)
                    &&& NodeStates::<D, V>::input_slot_is(next.st().inputs(inp)[i], label, data_type, Some(1usize), true)
                    &&& put_at(next.st().outputs(inp), st.outputs(inp), j)
                    &&& next.st().outputs(inp)[j].label == label && next.st().outputs(inp)[j].data_type == data_type
                    &&& put_at(next.st().inputs(sg), st.inputs(sg), k)
                    &&& NodeStates::<D, V>::input_slot_is(next.st().inputs(sg)[k], label, data_type, None, true)
                    &&& forall|q: Seq<u128>| q != inp && q != sg ==> #[trigger] next.st().inputs(q) == st.inputs(q)
                    &&& forall|q: Seq<u128>| q != inp ==> #[trigger] next.st().outputs(q) == st.outputs(q)
                    &&& next.st().edge_map().dom() == st.edge_map().dom()
                    &&& forall|x: u128| #[trigger] next.st().edge_map().dom().contains(x) ==> next.st().edge_map()[x]
                        == crate::node_state::shift_target_up(
                            crate::node_state::shift_source_up(crate::node_state::shift_target_up(st.edge_map()[x], inp, i), inp, j),
                            sg,
                            k,
                        )
                    &&& next.st().same_edge_indexes(&st)
                    &&& next.st().node_map() == st.node_map()
                    &&& next.st().same_children(&st)
                    &&& next.st().changed() == st.changed()
                    &&& advanced(st.generation(), next.st().generation())
                }
            }
        }
    }

    /// Puts an input port in at `index` of the root-level SubGraph
    /// `node_id` (`index` equal to the port count appends): on both sides
    /// of its input proxy and on the external input slots, with the
    /// indices of the edges above moved up. Refused past the port count.
    pub fn insert_subgraph_input_at(&mut self, node_id: &NodeId, index: usize, label: &'static str, data_type: DataType) -> (r:
        Result<(), String>)
        requires
            old(self).wf(),
            old(self).subgraph_map().dom().contains(seq![node_id@]) ==> {
                let inp = seq![node_id@].push(old(self).subgraph_map()[seq![node_id@]].input_proxy_id@);
                &&& NodeStates::<D, V>::target_indexes_below_max(old(self).st().edge_map(), inp)
                &&& NodeStates::<D, V>::source_indexes_below_max(old(self).st().edge_map(), inp)
                &&& NodeStates::<D, V>::target_indexes_below_max(old(self).st().edge_map(), seq![node_id@])
            },
        ensures
            final(self).wf(),
            old(self).input_port_inserted(&*final(self), *node_id, index, label, data_type, r),
    {
        let p = NodePath::root().child(*node_id);
        assert(p@ =~= seq![node_id@]);
        let inp = match self.subgraphs.get(&p) {
            None => {
                return Err(Self::not_subgraph(node_id));
            },
            Some(sg) => p.child(sg.input_proxy_id),
        };
        assert(inp@ != p@) by {
            assert(inp@.len() != p@.len());
        }
        let count = self.states.input_slot_count(&inp);
        if index > count {
            return Err(Self::out_of_range("insert_subgraph_input_at", index, count));
        }
        let ghost s0 = self.st();
        self.states.insert_input_slot_at(&inp, index, label, data_type, Some(1), true);
        let ghost s1 = self.st();
        assert(NodeStates::<D, V>::source_indexes_below_max(s1.edge_map(), inp@)) by {
            assert forall|x: u128| #[trigger] s1.edge_map().dom().contains(x) && s1.edge_map()[x].from_node@ == inp@
                implies s1.edge_map()[x].from_output_slot_index < usize::MAX by {
                assert(s0.edge_map().dom().contains(x));
            }
        }
        self.states.insert_output_slot_at(&inp, index, label, data_type);
        let ghost s2 = self.st();
        assert(NodeStates::<D, V>::target_indexes_below_max(s2.edge_map(), p@)) by {
            assert forall|x: u128| #[trigger] s2.edge_map().dom().contains(x) && s2.edge_map()[x].to_node@ == p@
                implies s2.edge_map()[x].to_input_slot_index < usize::MAX by {
                assert(s1.edge_map().dom().contains(x));
                assert(s0.edge_map().dom().contains(x));
            }
        }
        self.states.insert_input_slot_at(&p, index, label, data_type, None, true);
        proof {
            assert(s2.inputs(p@) == s0.inputs(p@));
            assert(s1.outputs(inp@) == s0.outputs(inp@));
            assert(self.st().inputs(inp@) == s1.inputs(inp@));
            assert(self.st().outputs(inp@) == s2.outputs(inp@));
            assert forall|q: Seq<u128>| q != inp@ && q != p@ implies #[trigger] self.st().inputs(q) == s0.inputs(q) by {
                assert(s2.inputs(q) == s1.inputs(q));
            }
            assert forall|x: u128| #[trigger] self.st().edge_map().dom().contains(x) implies self.st().edge_map()[x]
                == crate::node_state::shift_target_up(
                    crate::node_state::shift_source_up(crate::node_state::shift_target_up(s0.edge_map()[x], inp@, index as int), inp@, clamp(index as int, s0.outputs(inp@))),
                    p@,
                    clamp(index as int, s0.inputs(p@)),
                ) by {
                assert(s2.edge_map().dom().contains(x));
                assert(s1.edge_map().dom().contains(x));
            }
        }
        Ok(())
    }

    /// The outcome of `insert_subgraph_output_at`, leaving `next` and answering `r`.
    pub open spec fn output_port_inserted(&self, next: &Self, node_id: NodeId, index: usize, label: &'static str, data_type: DataType,
        r: Result<(), String>) -> bool {
        &&& next.subgraph_map() == self.subgraph_map()
        &&& next.error_map() == self.error_map()
        &&& next.removed_ids() == self.removed_ids()
        &&& {
            let sg = seq![node_id@];
            let st = self.st();
            if !self.subgraph_map().dom().contains(sg) {
                r matches Err(m) && m@ == not_subgraph_text(node_id@) && *next == *self
            } else {
                let outp = sg.push(self.subgraph_map()[sg].output_proxy_id@);
                let i = index as int;
                let j = clamp(i, st.outputs(outp));
                let k = clamp(i, st.outputs(sg));
                if i > st.inputs(outp).len() {
                    r matches Err(m) && m@ == out_of_range_text("insert_subgraph_output_at"@, index, st.inputs(outp).len())
                        && *next == *self
                } else {
                    &&& r is Ok
                    &&& put_at(next.st().inputs(outp), st.inputs(outp), i)
                    &&& NodeStates::<D, V>::input_slot_is(next.st().inputs(outp)[i], label, data_type, None, true)
                    &&& put_at(next.st().outputs(outp), st.outputs(outp), j)
                    &&& next.st().outputs(outp)[j].label == label && next.st().outputs(outp)[j].data_type == data_type
                    &&& put_at(next.st().outputs(sg), st.outputs(sg), k)
                    &&& next.st().outputs(sg)[k].label == label && next.st().outputs(sg)[k].data_type == data_type
                    &&& forall|q: Seq<u128>| q != outp ==> #[trigger] next.st().inputs(q) == st.inputs(q)
                    &&& forall|q: Seq<u128>| q != outp && q != sg ==> #[trigger] next.st().outputs(q) == st.outputs(q)
                    &&& next.st().edge_map().dom() == st.edge_map().dom()
                    &&& forall|x: u128| #[trigger] next.st().edge_map().dom().contains(x) ==> next.st().edge_map()[x]
                        == crate::node_state::shift_source_up(
                            crate::node_state::shift_source_up(crate::node_state::shift_target_up(st.edge_map()[x], outp, i), outp, j),
                            sg,
                            k,
                        )
                    &&& next.st().same_edge_indexes(&st)
                    &&& next.st().node_map() == st.node_map()
                    &&& next.st().same_children(&st)
                    &&& next.st().changed() == st.changed()
                    &&& advanced(st.generation(), next.st().generation())
                }
            }
        }
    }

    /// Puts an output port in at `index` of the root-level SubGraph
    /// `node_id` (`index` equal to the port count appends): on both sides
    /// of its output proxy and on the external output slots, with the
    /// indices of the edges above moved up. Refused past the port count.
    pub fn insert_subgraph_output_at(&mut self, node_id: &NodeId, index: usize, label: &'static str, data_type: DataType) -> (r:
        Result<(), String>)
        requires
            old(self).wf(),
            old(self).subgraph_map().dom().contains(seq![node_id@]) ==> {
                let outp = seq![node_id@].push(old(self).subgraph_map()[seq![node_id@]].output_proxy_id@);
                &&& NodeStates::<D, V>::target_indexes_below_max(old(self).st().edge_map(), outp)
                &&& NodeStates::<D, V>::source_indexes_below_max(old(self).st().edge_map(), outp)
                &&& NodeStates::<D, V>::source_indexes_below_max(old(self).st().edge_map(), seq![node_id@])
            },
        ensures
            final(self).wf(),
            old(self).output_port_inserted(&*final(self), *node_id, index, label, data_type, r),
    {
        let p = NodePath::root().child(*node_id);
        assert(p@ =~= seq![node_id@]);
        let outp = match self.subgraphs.get(&p) {
            None => {
                return Err(Self::not_subgraph(node_id));
            },
            Some(sg) => p.child(sg.output_proxy_id),
        };
        assert(outp@ != p@) by {
            assert(outp@.len() != p@.len());
        }
        let count = self.states.input_slot_count(&outp);
        if index > count {
            return Err(Self::out_of_range("insert_subgraph_output_at", index, count));
        }
        let ghost s0 = self.st();
        self.states.insert_input_slot_at(&outp, index, label, data_type, None, true);
        let ghost s1 = self.st();
        assert(NodeStates::<D, V>::source_indexes_below_max(s1.edge_map(), outp@)) by {
            assert forall|x: u128| #[trigger] s1.edge_map().dom().contains(x) && s1.edge_map()[x].from_node@ == outp@
                implies s1.edge_map()[x].from_output_slot_index < usize::MAX by {
                assert(s0.edge_map().dom().contains(x));
            }
        }
        self.states.insert_output_slot_at(&outp, index, label, data_type);
        let ghost s2 = self.st();
        assert(NodeStates::<D, V>::source_indexes_below_max(s2.edge_map(), p@)) by {
            assert forall|x: u128| #[trigger] s2.edge_map().dom().contains(x) && s2.edge_map()[x].from_node@ == p@
                implies s2.edge_map()[x].from_output_slot_index < usize::MAX by {
                assert(s1.edge_map().dom().contains(x));
                assert(s0.edge_map().dom().contains(x));
            }
        }
        self.states.insert_output_slot_at(&p, index, label, data_type);
        proof {
            assert(s2.outputs(p@) == s0.outputs(p@)) by {
                assert(s1.outputs(p@) == s0.outputs(p@));
            }
            assert(s1.outputs(outp@) == s0.outputs(outp@));
            assert(self.st().inputs(outp@) == s1.inputs(outp@));
            assert(self.st().outputs(outp@) == s2.outputs(outp@));
            assert forall|q: Seq<u128>| q != outp@ && q != p@ implies #[trigger] self.st().outputs(q) == s0.outputs(q) by {
                assert(s2.outputs(q) == s1.outputs(q));
            }
            assert forall|x: u128| #[trigger] self.st().edge_map().dom().contains(x) implies self.st().edge_map()[x]
                == crate::node_state::shift_source_up(
                    crate::node_state::shift_source_up(crate::node_state::shift_target_up(s0.edge_map()[x], outp@, index as int), outp@, clamp(index as int, s0.outputs(outp@))),
                    p@,
                    clamp(index as int, s0.outputs(p@)),
                ) by {
                assert(s2.edge_map().dom().contains(x));
                assert(s1.edge_map().dom().contains(x));
            }
        }
        Ok(())
    }

}

impl<D: PayloadType, V> NodeGraph<D, V> {
    /// Adds a port to the root-level SubGraph `node_id` as
    /// `add_subgraph_input` does, then records `label` as locked on its
    /// input proxy.
    pub fn add_subgraph_input_locked(&mut self, node_id: &NodeId, label: &'static str, data_type: DataType) -> (r: Result<(), String>)
        requires
            old(self).wf(),
        ensures
            final(self).wf(),
            ({
                let sg = seq![node_id@];
                if !old(self).subgraph_map().dom().contains(sg) {
                    r matches Err(m) && m@ == not_subgraph_text(node_id@) && *final(self) == *old(self)
                } else {
                    exists|mid: Self| #[trigger] old(self).input_port_added(&mid, *node_id, label, data_type, Ok(()))
                        && mid.label_locked(&*final(self), sg.push(old(self).subgraph_map()[sg].input_proxy_id@), label@, r)
                }
            }),
    {
        let r = self.add_subgraph_input(node_id, label, data_type);
        let ghost r0 = r;
        match r {
            Err(e) => {
                return Err(e);
            },
            Ok(u) => {
                assert(r0 == Ok::<(), String>(u));
            },
        }
        let ghost mid = *self;
        let ghost mid = *self;
        let p = NodePath::root().child(*node_id);
        assert(p@ =~= seq![node_id@]);
        let inp = match self.subgraphs.get(&p) {
            None => {
                return Err(Self::not_subgraph(node_id));
            },
            Some(sg) => p.child(sg.input_proxy_id),
        };
        let r2 = self.append_locked_label_at(&inp, label);
        assert(old(self).input_port_added(&mid, *node_id, label, data_type, r0) && mid.label_locked(&*self, inp@, label@, r2));
        r2
    }

    /// Adds a port to the root-level SubGraph `node_id` as
    /// `add_subgraph_output` does, then records `label` as locked on its
    /// output proxy.
    pub fn add_subgraph_output_locked(&mut self, node_id: &NodeId, label: &'static str, data_type: DataType) -> (r: Result<(), String>)
        requires
            old(self).wf(),
        ensures
            final(self).wf(),
            ({
                let sg = seq![node_id@];
                if !old(self).subgraph_map().dom().contains(sg) {
                    r matches Err(m) && m@ == not_subgraph_text(node_id@) && *final(self) == *old(self)
                } else {
                    exists|mid: Self| #[trigger] old(self).output_port_added(&mid, *node_id, label, data_type, Ok(()))
                        && mid.label_locked(&*final(self), sg.push(old(self).subgraph_map()[sg].output_proxy_id@), label@, r)
                }
            }),
    {
        let r = self.add_subgraph_output(node_id, label, data_type);
        let ghost r0 = r;
        match r {
            Err(e) => {
                return Err(e);
            },
            Ok(u) => {
                assert(r0 == Ok::<(), String>(u));
            },
        }
        let ghost mid = *self;
        let p = NodePath::root().child(*node_id);
        assert(p@ =~= seq![node_id@]);
        let outp = match self.subgraphs.get(&p) {
            None => {
                return Err(Self::not_subgraph(node_id));
            },
            Some(sg) => p.child(sg.output_proxy_id),
        };
        let r2 = self.append_locked_label_at(&outp, label);
        assert(old(self).output_port_added(&mid, *node_id, label, data_type, r0) && mid.label_locked(&*self, outp@, label@, r2));
        r2
    }

    /// Puts a port in at `index` of the root-level SubGraph `node_id` as
    /// `insert_subgraph_input_at` does, then records `label` as locked on
    /// its input proxy.
    pub fn insert_subgraph_input_locked_at(&mut self, node_id: &NodeId, index: usize, label: &'static str, data_type: DataType)
        -> (r: Result<(), String>)
        requires
            old(self).wf(),
            old(self).subgraph_map().dom().contains(seq![node_id@]) ==> {
                let inp = seq![node_id@].push(old(self).subgraph_map()[seq![node_id@]].input_proxy_id@);
                &&& NodeStates::<D, V>::target_indexes_below_max(old(self).st().edge_map(), inp)
                &&& NodeStates::<D, V>::source_indexes_below_max(old(self).st().edge_map(), inp)
                &&& NodeStates::<D, V>::target_indexes_below_max(old(self).st().edge_map(), seq![node_id@])
            },
        ensures
            final(self).wf(),
            ({
                let sg = seq![node_id@];
                if !old(self).subgraph_map().dom().contains(sg) || index > old(self).st().inputs(
                    sg.push(old(self).subgraph_map()[sg].input_proxy_id@),
                ).len() {
                    old(self).input_port_inserted(&*final(self), *node_id, index, label, data_type, r)
                } else {
                    exists|mid: Self| #[trigger] old(self).input_port_inserted(&mid, *node_id, index, label, data_type, Ok(()))
                        && mid.label_locked(&*final(self), sg.push(old(self).subgraph_map()[sg].input_proxy_id@), label@, r)
                }
            }),
    {
        let r = self.insert_subgraph_input_at(node_id, index, label, data_type);
        let ghost r0 = r;
        match r {
            Err(e) => {
                return Err(e);
            },
            Ok(u) => {
                assert(r0 == Ok::<(), String>(u));
            },
        }
        let ghost mid = *self;
        let p = NodePath::root().child(*node_id);
        assert(p@ =~= seq![node_id@]);
        let inp = match self.subgraphs.get(&p) {
            None => {
                return Err(Self::not_subgraph(node_id));
            },
            Some(sg) => p.child(sg.input_proxy_id),
        };
        let r2 = self.append_locked_label_at(&inp, label);
        assert(old(self).input_port_inserted(&mid, *node_id, index, label, data_type, r0) && mid.label_locked(&*self, inp@, label@, r2));
        r2
    }

    /// Puts a port in at `index` of the root-level SubGraph `node_id` as
    /// `insert_subgraph_output_at` does, then records `label` as locked on
    /// its output proxy.
    pub fn insert_subgraph_output_locked_at(&mut self, node_id: &NodeId, index: usize, label: &'static str, data_type: DataType)
        -> (r: Result<(), String>)
        requires
            old(self).wf(),
            old(self).subgraph_map().dom().contains(seq![node_id@]) ==> {
                let outp = seq![node_id@].push(old(self).subgraph_map()[seq![node_id@]].output_proxy_id@);
                &&& NodeStates::<D, V>::target_indexes_below_max(old(self).st().edge_map(), outp)
                &&& NodeStates::<D, V>::source_indexes_below_max(old(self).st().edge_map(), outp)
                &&& NodeStates::<D, V>::source_indexes_below_max(old(self).st().edge_map(), seq![node_id@])
            },
        ensures
            final(self).wf(),
            ({
                let sg = seq![node_id@];
                if !old(self).subgraph_map().dom().contains(sg) || index > old(self).st().inputs(
                    sg.push(old(self).subgraph_map()[sg].output_proxy_id@),
                ).len() {
                    old(self).output_port_inserted(&*final(self), *node_id, index, label, data_type, r)
                } else {
                    exists|mid: Self| #[trigger] old(self).output_port_inserted(&mid, *node_id, index, label, data_type, Ok(()))
                        && mid.label_locked(&*final(self), sg.push(old(self).subgraph_map()[sg].output_proxy_id@), label@, r)
                }
            }),
    {
        let r = self.insert_subgraph_output_at(node_id, index, label, data_type);
        let ghost r0 = r;
        match r {
            Err(e) => {
                return Err(e);
            },
            Ok(u) => {
                assert(r0 == Ok::<(), String>(u));
            },
        }
        let ghost mid = *self;
        let p = NodePath::root().child(*node_id);
        assert(p@ =~= seq![node_id@]);
        let outp = match self.subgraphs.get(&p) {
            None => {
                return Err(Self::not_subgraph(node_id));
            },
            Some(sg) => p.child(sg.output_proxy_id),
        };
        let r2 = self.append_locked_label_at(&outp, label);
        assert(old(self).output_port_inserted(&mid, *node_id, index, label, data_type, r0) && mid.label_locked(&*self, outp@, label@, r2));
        r2
    }
}


/// A snapshot of one edge: its id and both endpoints.
pub struct EdgeInfo {
    pub id: EdgeId,
    pub from_node: NodePath,
    pub from_output: usize,
    pub to_node: NodePath,
    pub to_input: usize,
}

/// Label and type of a slot.
pub struct SlotInfo {
    pub label: &'static str,
    pub data_type: DataType,
}

/// Id, label, type and default value of an input slot.
pub struct InputSlotInfo<V> {
    pub id: InputSlotId,
    pub label: &'static str,
    pub data_type: DataType,
    pub default_value: Option<V>,
}

/// `info` describes edge `x` of `st`.
pub open spec fn describes<D, V>(st: NodeStates<D, V>, info: EdgeInfo, x: u128) -> bool {
    &&& info.id@ == x
    &&& info.from_node@ == st.edge_map()[x].from_node@
    &&& info.from_output == st.edge_map()[x].from_output_slot_index
    &&& info.to_node@ == st.edge_map()[x].to_node@
    &&& info.to_input == st.edge_map()[x].to_input_slot_index
}

/// Edge `x` exists and leaves a node whose local id is one of `children`.
pub open spec fn from_child<D, V>(st: NodeStates<D, V>, children: Seq<u128>, x: u128) -> bool {
    &&& st.edge_map().dom().contains(x)
    &&& st.edge_map()[x].from_node@.len() > 0
    &&& children.contains(st.edge_map()[x].from_node@.last())
}

/// The members of `edges` that leave one of `children`, in order.
pub open spec fn edges_from<D, V>(st: NodeStates<D, V>, children: Seq<u128>, edges: Seq<u128>) -> Seq<u128> {
    edges.filter(|x: u128| from_child(st, children, x))
}

proof fn lemma_edges_from_step<D, V>(st: NodeStates<D, V>, children: Seq<u128>, s: Seq<u128>)
    requires
        s.len() > 0,
    ensures
        edges_from(st, children, s) == if from_child(st, children, s.last()) {
            edges_from(st, children, s.drop_last()).push(s.last())
        } else {
            edges_from(st, children, s.drop_last())
        },
{
    reveal(Seq::filter);
}

/// For each slot of `slots`, its edges that leave one of `children`.
pub open spec fn slot_parts<D, V>(st: NodeStates<D, V>, children: Seq<u128>, slots: Seq<InputSlotState<V>>) -> Seq<Seq<u128>> {
    slots.map_values(|s: InputSlotState<V>| edges_from(st, children, st.input_edges(s.id@)))
}

/// The edges into the node at `p` that leave one of `children`: slot by
/// slot, each in connection order.
pub open spec fn node_edges_from<D, V>(st: NodeStates<D, V>, children: Seq<u128>, p: Seq<u128>) -> Seq<u128> {
    slot_parts(st, children, st.inputs(p)).flatten()
}

/// For each child `c` of `cs`, the edges into `sg.push(c)` that leave one
/// of `children`.
pub open spec fn child_parts<D, V>(st: NodeStates<D, V>, children: Seq<u128>, sg: Seq<u128>, cs: Seq<u128>) -> Seq<Seq<u128>> {
    cs.map_values(|c: u128| node_edges_from(st, children, sg.push(c)))
}

/// The edges between direct children of the node at `sg`: child by child
/// in the children index order, then slot by slot, each slot in
/// connection order.
pub open spec fn inner_edges<D, V>(st: NodeStates<D, V>, sg: Seq<u128>) -> Seq<u128> {
    child_parts(st, st.children(sg), sg, st.children(sg)).flatten()
}

/// `infos` describe the edges `ids`, one by one.
pub open spec fn describes_all<D, V>(st: NodeStates<D, V>, infos: Seq<EdgeInfo>, ids: Seq<u128>) -> bool {
    &&& infos.len() == ids.len()
    &&& forall|k: int| 0 <= k < infos.len() ==> describes(st, #[trigger] infos[k], ids[k])
}

impl<D, V> NodeGraph<D, V> {
    /// The local ids of the direct children of the node at `path`.
    pub fn children_of_path(&self, path: &NodePath) -> (r: Vec<NodeId>)
        requires
            self.wf(),
        ensures
            key_seq(r@) == self.st().children(path@),
    {
        self.states.path_index_children_of(path)
    }

    /// The local ids of the direct children of the root-level SubGraph
    /// `node_id`; `None` when it is no SubGraph.
    pub fn subgraph_node_ids(&self, node_id: &NodeId) -> (r: Option<Vec<NodeId>>)
        requires
            self.wf(),
        ensures
            match r {
                Some(ids) => self.subgraph_map().dom().contains(seq![node_id@]) && key_seq(ids@) == self.st().children(
                    seq![node_id@],
                ),
                None => !self.subgraph_map().dom().contains(seq![node_id@]),
            },
    {
        let p = NodePath::root().child(*node_id);
        assert(p@ =~= seq![node_id@]);
        if !self.subgraphs.contains_key(&p) {
            return None;
        }
        Some(self.states.path_index_children_of(&p))
    }

    /// The input and output of the SubGraph at `sg_path` that an outside
    /// edge attaches to for input port `port_index`: the path of its input
    /// proxy and the id of that proxy's input slot.
    pub fn subgraph_external_input_slot(&self, sg_path: &NodePath, port_index: usize) -> (r: Option<(NodePath, InputSlotId)>)
        requires
            self.wf(),
        ensures
            match r {
                Some((p, sid)) => {
                    &&& self.subgraph_map().dom().contains(sg_path@)
                    &&& p@ == sg_path@.push(self.subgraph_map()[sg_path@].input_proxy_id@)
                    &&& port_index < self.st().inputs(p@).len()
                    &&& sid == self.st().inputs(p@)[port_index as int].id
                },
                None => !self.subgraph_map().dom().contains(sg_path@) || port_index >= self.st().inputs(
                    sg_path@.push(self.subgraph_map()[sg_path@].input_proxy_id@),
                ).len(),
            },
    {
        let inp = match self.subgraphs.get(sg_path) {
            None => {
                return None;
            },
            Some(sg) => sg_path.child(sg.input_proxy_id),
        };
        match self.states.input_slot(&inp, port_index) {
            None => None,
            Some(slot) => Some((inp, slot.id)),
        }
    }

    /// The output proxy path of the SubGraph at `sg_path` and the id of
    /// that proxy's output slot `port_index`, where an outside edge leaves
    /// output port `port_index`.
    pub fn subgraph_external_output_slot(&self, sg_path: &NodePath, port_index: usize) -> (r: Option<(NodePath, OutputSlotId)>)
        requires
            self.wf(),
        ensures
            match r {
                Some((p, sid)) => {
                    &&& self.subgraph_map().dom().contains(sg_path@)
                    &&& p@ == sg_path@.push(self.subgraph_map()[sg_path@].output_proxy_id@)
                    &&& port_index < self.st().outputs(p@).len()
                    &&& sid == self.st().outputs(p@)[port_index as int].id
                },
                None => !self.subgraph_map().dom().contains(sg_path@) || port_index >= self.st().outputs(
                    sg_path@.push(self.subgraph_map()[sg_path@].output_proxy_id@),
                ).len(),
            },
    {
        let outp = match self.subgraphs.get(sg_path) {
            None => {
                return None;
            },
            Some(sg) => sg_path.child(sg.output_proxy_id),
        };
        match self.states.output_slot(&outp, port_index) {
            None => None,
            Some(slot) => Some((outp, slot.id)),
        }
    }

    /// The local ids of every node below the root.
    pub fn node_ids(&self) -> (r: Vec<NodeId>)
        requires
            self.wf(),
        ensures
            forall|x: u128| key_seq(r@).contains(x) <==> exists|p: Seq<u128>|
                #[trigger] self.st().node_map().dom().contains(p) && p.len() > 0 && p.last() == x,
    {
        let r = self.states.node_ids();
        assert forall|x: u128| key_seq(r@).contains(x) <==> exists|p: Seq<u128>|
            #[trigger] self.st().node_map().dom().contains(p) && p.len() > 0 && p.last() == x by {
            assert(self.st().node_map() == self.states.node_map());
        }
        r
    }

    /// A snapshot of the edge `edge_id`.
    pub fn edge_info(&self, edge_id: &EdgeId) -> (r: Option<EdgeInfo>)
        requires
            self.wf(),
        ensures
            match r {
                Some(i) => self.st().edge_map().dom().contains(edge_id@) && describes(self.st(), i, edge_id@),
                None => !self.st().edge_map().dom().contains(edge_id@),
            },
    {
        match self.states.get_edge(edge_id) {
            None => None,
            Some(e) => Some(
                EdgeInfo {
                    id: *edge_id,
                    from_node: e.from_node.clone(),
                    from_output: e.from_output_slot_index,
                    to_node: e.to_node.clone(),
                    to_input: e.to_input_slot_index,
                },
            ),
        }
    }

    /// A snapshot of every edge, each once, in no particular order.
    pub fn edges_info(&self) -> (r: Vec<EdgeInfo>)
        requires
            self.wf(),
        ensures
            forall|k: int| 0 <= k < r@.len() ==> self.st().edge_map().dom().contains((#[trigger] r@[k]).id@)
                && describes(self.st(), r@[k], r@[k].id@),
            forall|x: u128| #[trigger] self.st().edge_map().dom().contains(x) ==> exists|k: int| 0 <= k < r@.len() && (#[trigger] r@[k]).id@ == x,
            forall|k1: int, k2: int| 0 <= k1 < r@.len() && 0 <= k2 < r@.len() && k1 != k2 ==> (#[trigger] r@[k1]).id != (#[trigger] r@[k2]).id,
    {
        let edges = self.states.edges();
        let n = edges.len();
        let mut r: Vec<EdgeInfo> = Vec::new();
        let mut i: usize = 0;
        proof {
            edges.lemma_entries();
        }
        while i < n
            invariant
                self.wf(),
                edges.wf(),
                edges@ == self.st().edge_map(),
                n == edges.spec_len(),
                i <= n,
                r@.len() == i,
                forall|k: int| 0 <= k < i ==> (#[trigger] r@[k]).id@ == edges.key_at(k) && describes(self.st(), r@[k], edges.key_at(k)),
                forall|k: int| 0 <= k < edges.spec_len() ==> #[trigger] edges@.dom().contains(edges.key_at(k))
                    && edges@[edges.key_at(k)] == edges.value_at(k),
            decreases n - i,
        {
            let id = edges.key(i);
            let e = edges.value(i);
            let ghost before = r@;
            assert(edges@.dom().contains(edges.key_at(i as int)));
            r.push(
                EdgeInfo {
                    id: *id,
                    from_node: e.from_node.clone(),
                    from_output: e.from_output_slot_index,
                    to_node: e.to_node.clone(),
                    to_input: e.to_input_slot_index,
                },
            );
            assert forall|k: int| 0 <= k < i + 1 implies (#[trigger] r@[k]).id@ == edges.key_at(k) && describes(self.st(), r@[k], edges.key_at(k)) by {
                if k < i {
                    assert(r@[k] == before[k]);
                }
            }
            i = i + 1;
        }
        proof {
            assert forall|x: u128| #[trigger] self.st().edge_map().dom().contains(x) implies exists|k: int|
                0 <= k < r@.len() && (#[trigger] r@[k]).id@ == x by {
                let k = choose|k: int| 0 <= k < edges.spec_len() && #[trigger] edges.key_at(k) == x;
                assert(r@[k].id@ == x);
            }
            assert forall|k1: int, k2: int| 0 <= k1 < r@.len() && 0 <= k2 < r@.len() && k1 != k2 implies (#[trigger] r@[k1]).id
                != (#[trigger] r@[k2]).id by {
                assert(edges.key_at(k1) != edges.key_at(k2));
            }
        }
        r
    }

    /// Whether a node sits at the root-level path of `node_id`.
    pub fn has_node(&self, node_id: &NodeId) -> (r: bool)
        requires
            self.wf(),
        ensures
            r == self.st().node_map().dom().contains(seq![node_id@]),
    {
        let p = NodePath::root().child(*node_id);
        assert(p@ =~= seq![node_id@]);
        self.states.get(&p).is_some()
    }

    /// The type name of the root-level node `node_id`.
    pub fn node_type_name(&self, node_id: &NodeId) -> (r: Option<&'static str>)
        requires
            self.wf(),
        ensures
            match r {
                Some(n) => self.st().node_map().dom().contains(seq![node_id@]) && n == self.st().node_map()[seq![node_id@]].type_label,
                None => !self.st().node_map().dom().contains(seq![node_id@]),
            },
    {
        let p = NodePath::root().child(*node_id);
        assert(p@ =~= seq![node_id@]);
        self.node_type_name_at(&p)
    }

    /// The Rust type of the root-level node `node_id`, where it is known.
    pub fn node_type_id(&self, node_id: &NodeId) -> (r: Option<std::any::TypeId>)
        requires
            self.wf(),
        ensures
            r == if self.st().node_map().dom().contains(seq![node_id@]) {
                self.st().node_map()[seq![node_id@]].rust_type_id
            } else {
                None
            },
    {
        let p = NodePath::root().child(*node_id);
        assert(p@ =~= seq![node_id@]);
        match self.states.get(&p) {
            None => None,
            Some(st) => st.rust_type_id,
        }
    }

    /// The data of the node at `path`.
    pub fn node_data_at_path(&self, path: &NodePath) -> (r: Option<&NodeData<D>>)
        requires
            self.wf(),
        ensures
            match r {
                Some(d) => self.st().node_map().dom().contains(path@) && self.st().node_map()[path@].data == Some(*d),
                None => !self.st().node_map().dom().contains(path@) || self.st().node_map()[path@].data is None,
            },
    {
        match self.states.get(path) {
            None => None,
            Some(st) => match &st.data {
                None => None,
                Some(d) => Some(d),
            },
        }
    }

    /// The data of the root-level node `node_id`.
    pub fn node_data(&self, node_id: &NodeId) -> (r: Option<&NodeData<D>>)
        requires
            self.wf(),
        ensures
            match r {
                Some(d) => self.st().node_map().dom().contains(seq![node_id@]) && self.st().node_map()[seq![node_id@]].data == Some(*d),
                None => !self.st().node_map().dom().contains(seq![node_id@]) || self.st().node_map()[seq![node_id@]].data is None,
            },
    {
        let p = NodePath::root().child(*node_id);
        assert(p@ =~= seq![node_id@]);
        self.node_data_at_path(&p)
    }

    /// The number of input slots of the root-level node `node_id`.
    pub fn input_slot_count(&self, node_id: &NodeId) -> (r: usize)
        requires
            self.wf(),
        ensures
            r == self.st().inputs(seq![node_id@]).len(),
    {
        let p = NodePath::root().child(*node_id);
        assert(p@ =~= seq![node_id@]);
        self.states.input_slot_count(&p)
    }

    /// The number of output slots of the root-level node `node_id`.
    pub fn output_slot_count(&self, node_id: &NodeId) -> (r: usize)
        requires
            self.wf(),
        ensures
            r == self.st().outputs(seq![node_id@]).len(),
    {
        let p = NodePath::root().child(*node_id);
        assert(p@ =~= seq![node_id@]);
        self.states.output_slot_count(&p)
    }

    /// Input slot `slot` of the root-level node `node_id`.
    fn root_input(&self, node_id: &NodeId, slot: usize) -> (r: Option<&InputSlotState<V>>)
        requires
            self.wf(),
        ensures
            match r {
                Some(s) => slot < self.st().inputs(seq![node_id@]).len() && *s == self.st().inputs(seq![node_id@])[slot as int],
                None => slot >= self.st().inputs(seq![node_id@]).len(),
            },
    {
        let p = NodePath::root().child(*node_id);
        assert(p@ =~= seq![node_id@]);
        self.states.input_slot(&p, slot)
    }

    /// Output slot `slot` of the root-level node `node_id`.
    fn root_output(&self, node_id: &NodeId, slot: usize) -> (r: Option<&OutputSlotState>)
        requires
            self.wf(),
        ensures
            match r {
                Some(s) => slot < self.st().outputs(seq![node_id@]).len() && *s == self.st().outputs(seq![node_id@])[slot as int],
                None => slot >= self.st().outputs(seq![node_id@]).len(),
            },
    {
        let p = NodePath::root().child(*node_id);
        assert(p@ =~= seq![node_id@]);
        self.states.output_slot(&p, slot)
    }

    /// The label of input slot `slot` of the root-level node `node_id`.
    pub fn input_slot_label(&self, node_id: &NodeId, slot: usize) -> (r: Option<&'static str>)
        requires
            self.wf(),
        ensures
            r == if slot < self.st().inputs(seq![node_id@]).len() {
                Some(self.st().inputs(seq![node_id@])[slot as int].label)
            } else {
                None
            },
    {
        match self.root_input(node_id, slot) {
            None => None,
            Some(s) => Some(s.label),
        }
    }

    /// The type of input slot `slot` of the root-level node `node_id`.
    pub fn input_slot_data_type(&self, node_id: &NodeId, slot: usize) -> (r: Option<DataType>)
        requires
            self.wf(),
        ensures
            r == if slot < self.st().inputs(seq![node_id@]).len() {
                Some(self.st().inputs(seq![node_id@])[slot as int].data_type)
            } else {
                None
            },
    {
        match self.root_input(node_id, slot) {
            None => None,
            Some(s) => Some(s.data_type),
        }
    }

    /// Whether input slot `slot` of the root-level node `node_id` is shown
    /// in property inspectors.
    pub fn input_slot_inspector_visible(&self, node_id: &NodeId, slot: usize) -> (r: Option<bool>)
        requires
            self.wf(),
        ensures
            r == if slot < self.st().inputs(seq![node_id@]).len() {
                Some(self.st().inputs(seq![node_id@])[slot as int].inspector_visible)
            } else {
                None
            },
    {
        match self.root_input(node_id, slot) {
            None => None,
            Some(s) => Some(s.inspector_visible),
        }
    }

    /// The default value of input slot `slot` of the root-level node
    /// `node_id`.
    pub fn input_slot_default_value(&self, node_id: &NodeId, slot: usize) -> (r: Option<&V>)
        requires
            self.wf(),
        ensures
            match r {
                Some(v) => slot < self.st().inputs(seq![node_id@]).len() && self.st().inputs(seq![node_id@])[slot as int].default_value
                    == Some(*v),
                None => slot >= self.st().inputs(seq![node_id@]).len() || self.st().inputs(seq![node_id@])[slot as int].default_value is None,
            },
    {
        match self.root_input(node_id, slot) {
            None => None,
            Some(s) => match &s.default_value {
                None => None,
                Some(v) => Some(v),
            },
        }
    }

    /// The id of input slot `slot` of the root-level node `node_id`.
    pub fn input_slot_id(&self, node_id: &NodeId, slot: usize) -> (r: Option<InputSlotId>)
        requires
            self.wf(),
        ensures
            r == if slot < self.st().inputs(seq![node_id@]).len() {
                Some(self.st().inputs(seq![node_id@])[slot as int].id)
            } else {
                None
            },
    {
        match self.root_input(node_id, slot) {
            None => None,
            Some(s) => Some(s.id),
        }
    }

    /// The label of output slot `slot` of the root-level node `node_id`.
    pub fn output_slot_label(&self, node_id: &NodeId, slot: usize) -> (r: Option<&'static str>)
        requires
            self.wf(),
        ensures
            r == if slot < self.st().outputs(seq![node_id@]).len() {
                Some(self.st().outputs(seq![node_id@])[slot as int].label)
            } else {
                None
            },
    {
        match self.root_output(node_id, slot) {
            None => None,
            Some(s) => Some(s.label),
        }
    }

    /// The type of output slot `slot` of the root-level node `node_id`.
    pub fn output_slot_data_type(&self, node_id: &NodeId, slot: usize) -> (r: Option<DataType>)
        requires
            self.wf(),
        ensures
            r == if slot < self.st().outputs(seq![node_id@]).len() {
                Some(self.st().outputs(seq![node_id@])[slot as int].data_type)
            } else {
                None
            },
    {
        match self.root_output(node_id, slot) {
            None => None,
            Some(s) => Some(s.data_type),
        }
    }

    /// Label and type of output slot `slot` of the root-level node
    /// `node_id`.
    pub fn output_slot_info(&self, node_id: &NodeId, slot: usize) -> (r: Option<SlotInfo>)
        requires
            self.wf(),
        ensures
            match r {
                Some(i) => slot < self.st().outputs(seq![node_id@]).len() && i.label == self.st().outputs(seq![node_id@])[slot as int].label
                    && i.data_type == self.st().outputs(seq![node_id@])[slot as int].data_type,
                None => slot >= self.st().outputs(seq![node_id@]).len(),
            },
    {
        let p = NodePath::root().child(*node_id);
        assert(p@ =~= seq![node_id@]);
        self.output_slot_info_at(&p, slot)
    }

    /// The node path and index of the input slot with id `sid`.
    pub fn input_slot_owner(&self, sid: &InputSlotId) -> (r: Option<(NodePath, usize)>)
        requires
            self.wf(),
        ensures
            match r {
                Some((p, i)) => i < self.st().inputs(p@).len() && self.st().inputs(p@)[i as int].id@ == sid@,
                None => forall|p: Seq<u128>, i: int| 0 <= i < self.st().inputs(p).len() ==> #[trigger] self.st().inputs(p)[i].id@ != sid@,
            },
    {
        self.states.input_slot_owner(sid)
    }

    /// The node path and index of the output slot with id `sid`.
    pub fn output_slot_owner(&self, sid: &OutputSlotId) -> (r: Option<(NodePath, usize)>)
        requires
            self.wf(),
        ensures
            match r {
                Some((p, i)) => i < self.st().outputs(p@).len() && self.st().outputs(p@)[i as int].id@ == sid@,
                None => forall|p: Seq<u128>, i: int| 0 <= i < self.st().outputs(p).len() ==> #[trigger] self.st().outputs(p)[i].id@ != sid@,
            },
    {
        self.states.output_slot_owner(sid)
    }

    /// Moves edge `edge_id` to position `new_index` of its output slot's
    /// connection list, as the node states do.
    pub fn reorder_output_edge(&mut self, edge_id: &EdgeId, new_index: usize) -> (r: bool)
        requires
            old(self).wf(),
        ensures
            final(self).wf(),
            final(self).st().output_edge_reordered(&old(self).st(), edge_id@, new_index, r),
            final(self).subgraph_map() == old(self).subgraph_map(),
            final(self).error_map() == old(self).error_map(),
            final(self).removed_ids() == old(self).removed_ids(),
    {
        self.states.reorder_output_edge(edge_id, new_index)
    }

    /// Moves edge `edge_id` to position `new_index` of its input slot's
    /// connection list, as the node states do.
    pub fn reorder_input_edge(&mut self, edge_id: &EdgeId, new_index: usize) -> (r: bool)
        requires
            old(self).wf(),
        ensures
            final(self).wf(),
            final(self).st().input_edge_reordered(&old(self).st(), edge_id@, new_index, r),
            final(self).subgraph_map() == old(self).subgraph_map(),
            final(self).error_map() == old(self).error_map(),
            final(self).removed_ids() == old(self).removed_ids(),
    {
        self.states.reorder_input_edge(edge_id, new_index)
    }

    /// The edges leaving the root-level node `node_id`.
    pub fn outgoing_edges(&self, node_id: &NodeId) -> (r: Vec<EdgeId>)
        requires
            self.wf(),
        ensures
            key_seq(r@) == self.st().outgoing(seq![node_id@]),
    {
        let p = NodePath::root().child(*node_id);
        assert(p@ =~= seq![node_id@]);
        self.states.outgoing_edges_at(&p)
    }

    /// The number of input slots of the node at `path`.
    pub fn input_slot_count_at(&self, path: &NodePath) -> (r: usize)
        requires
            self.wf(),
        ensures
            r == self.st().inputs(path@).len(),
    {
        self.states.input_slot_count(path)
    }

    /// The number of output slots of the node at `path`.
    pub fn output_slot_count_at(&self, path: &NodePath) -> (r: usize)
        requires
            self.wf(),
        ensures
            r == self.st().outputs(path@).len(),
    {
        self.states.output_slot_count(path)
    }

    /// The type name of the node at `path`.
    pub fn node_type_name_at(&self, path: &NodePath) -> (r: Option<&'static str>)
        requires
            self.wf(),
        ensures
            match r {
                Some(n) => self.st().node_map().dom().contains(path@) && n == self.st().node_map()[path@].type_label,
                None => !self.st().node_map().dom().contains(path@),
            },
    {
        match self.states.get(path) {
            None => None,
            Some(st) => Some(st.type_label),
        }
    }

    /// Label and type of output slot `slot` at `path`.
    pub fn output_slot_info_at(&self, path: &NodePath, slot: usize) -> (r: Option<SlotInfo>)
        requires
            self.wf(),
        ensures
            match r {
                Some(i) => slot < self.st().outputs(path@).len() && i.label == self.st().outputs(path@)[slot as int].label
                    && i.data_type == self.st().outputs(path@)[slot as int].data_type,
                None => slot >= self.st().outputs(path@).len(),
            },
    {
        match self.states.output_slot(path, slot) {
            None => None,
            Some(s) => Some(SlotInfo { label: s.label, data_type: s.data_type }),
        }
    }

    /// The type of input slot `slot` at `path`.
    pub fn input_slot_data_type_at(&self, path: &NodePath, slot: usize) -> (r: Option<DataType>)
        requires
            self.wf(),
        ensures
            match r {
                Some(t) => slot < self.st().inputs(path@).len() && t == self.st().inputs(path@)[slot as int].data_type,
                None => slot >= self.st().inputs(path@).len(),
            },
    {
        match self.states.input_slot(path, slot) {
            None => None,
            Some(s) => Some(s.data_type),
        }
    }

    /// Whether input slot `slot` at `path` is shown in property
    /// inspectors; `None` when there is no such slot.
    pub fn input_slot_inspector_visible_at(&self, path: &NodePath, slot: usize) -> (r: Option<bool>)
        requires
            self.wf(),
        ensures
            match r {
                Some(v) => slot < self.st().inputs(path@).len() && v == self.st().inputs(path@)[slot as int].inspector_visible,
                None => slot >= self.st().inputs(path@).len(),
            },
    {
        match self.states.input_slot(path, slot) {
            None => None,
            Some(s) => Some(s.inspector_visible),
        }
    }

    /// Sets whether input slot `slot` at `path` is shown in property
    /// inspectors; `false` when there is no such slot.
    pub fn set_input_slot_inspector_visible_at(&mut self, path: &NodePath, slot: usize, visible: bool) -> (r: bool)
        requires
            old(self).wf(),
        ensures
            final(self).wf(),
            r == (slot < old(self).st().inputs(path@).len()),
            r ==> final(self).st().inputs(path@) == old(self).st().inputs(path@).update(
                slot as int,
                InputSlotState { inspector_visible: visible, ..old(self).st().inputs(path@)[slot as int] },
            ),
            !r ==> *final(self) == *old(self),
            forall|p: Seq<u128>| p != path@ ==> #[trigger] final(self).st().inputs(p) == old(self).st().inputs(p),
            final(self).st().same_except_inputs(&old(self).st()),
            final(self).st().generation() == old(self).st().generation(),
            final(self).subgraph_map() == old(self).subgraph_map(),
            final(self).error_map() == old(self).error_map(),
            final(self).removed_ids() == old(self).removed_ids(),
    {
        self.states.set_input_slot_inspector_visible(path, slot, visible)
    }

    /// The edges on input slot `slot` at `path`, in connection order;
    /// empty when there is no such slot.
    pub fn edges_for_input_slot_at(&self, path: &NodePath, slot: usize) -> (r: Vec<EdgeId>)
        requires
            self.wf(),
        ensures
            key_seq(r@) == if slot < self.st().inputs(path@).len() {
                self.st().input_edges(self.st().inputs(path@)[slot as int].id@)
            } else {
                Seq::empty()
            },
    {
        match self.states.input_slot(path, slot) {
            None => Vec::new(),
            Some(s) => self.states.edges_for_input(&s.id),
        }
    }

    /// The edges on output slot `slot` at `path`, in connection order;
    /// empty when there is no such slot.
    pub fn edges_for_output_slot_at(&self, path: &NodePath, slot: usize) -> (r: Vec<EdgeId>)
        requires
            self.wf(),
        ensures
            key_seq(r@) == if slot < self.st().outputs(path@).len() {
                self.st().output_edges(self.st().outputs(path@)[slot as int].id@)
            } else {
                Seq::empty()
            },
    {
        match self.states.output_slot(path, slot) {
            None => Vec::new(),
            Some(s) => self.states.edges_for_output(&s.id),
        }
    }

    /// The edges on input slot `slot` of the root-level node `node_id`,
    /// in connection order.
    pub fn edges_for_input_slot(&self, node_id: &NodeId, slot: usize) -> (r: Vec<EdgeId>)
        requires
            self.wf(),
        ensures
            key_seq(r@) == if slot < self.st().inputs(seq![node_id@]).len() {
                self.st().input_edges(self.st().inputs(seq![node_id@])[slot as int].id@)
            } else {
                Seq::empty()
            },
    {
        let p = NodePath::root().child(*node_id);
        assert(p@ =~= seq![node_id@]);
        self.edges_for_input_slot_at(&p, slot)
    }

    /// The edges on output slot `slot` of the root-level node `node_id`,
    /// in connection order.
    pub fn edges_for_output_slot(&self, node_id: &NodeId, slot: usize) -> (r: Vec<EdgeId>)
        requires
            self.wf(),
        ensures
            key_seq(r@) == if slot < self.st().outputs(seq![node_id@]).len() {
                self.st().output_edges(self.st().outputs(seq![node_id@])[slot as int].id@)
            } else {
                Seq::empty()
            },
    {
        let p = NodePath::root().child(*node_id);
        assert(p@ =~= seq![node_id@]);
        self.edges_for_output_slot_at(&p, slot)
    }
}

impl<D, V: Clone> NodeGraph<D, V> {
    /// Id, label, type and a copy of the default of input slot `slot` of
    /// the root-level node `node_id`.
    pub fn input_slot_info(&self, node_id: &NodeId, slot: usize) -> (r: Option<InputSlotInfo<V>>)
        requires
            self.wf(),
        ensures
            match r {
                Some(i) => {
                    let s = self.st().inputs(seq![node_id@])[slot as int];
                    &&& slot < self.st().inputs(seq![node_id@]).len()
                    &&& i.id == s.id
                    &&& i.label == s.label
                    &&& i.data_type == s.data_type
                    &&& match (i.default_value, s.default_value) {
                        (Some(a), Some(b)) => vstd::pervasive::cloned(b, a),
                        (None, None) => true,
                        _ => false,
                    }
                },
                None => slot >= self.st().inputs(seq![node_id@]).len(),
            },
    {
        let p = NodePath::root().child(*node_id);
        assert(p@ =~= seq![node_id@]);
        self.input_slot_info_at(&p, slot)
    }

    /// Id, label, type and a copy of the default of input slot `slot` at
    /// `path`.
    pub fn input_slot_info_at(&self, path: &NodePath, slot: usize) -> (r: Option<InputSlotInfo<V>>)
        requires
            self.wf(),
        ensures
            match r {
                Some(i) => {
                    let s = self.st().inputs(path@)[slot as int];
                    &&& slot < self.st().inputs(path@).len()
                    &&& i.id == s.id
                    &&& i.label == s.label
                    &&& i.data_type == s.data_type
                    &&& match (i.default_value, s.default_value) {
                        (Some(a), Some(b)) => vstd::pervasive::cloned(b, a),
                        (None, None) => true,
                        _ => false,
                    }
                },
                None => slot >= self.st().inputs(path@).len(),
            },
    {
        match self.states.input_slot(path, slot) {
            None => None,
            Some(s) => {
                let default_value = match &s.default_value {
                    Some(v) => Some(v.clone()),
                    None => None,
                };
                Some(InputSlotInfo { id: s.id, label: s.label, data_type: s.data_type, default_value })
            },
        }
    }
}


impl<D, V> NodeGraph<D, V> {
    /// The edges between direct children of the root-level SubGraph
    /// `node_id` (both ends inside it): child by child in creation order,
    /// slot by slot, each slot's edges in connection order, so replaying
    /// them reproduces every slot's order.
    pub fn subgraph_edges(&self, node_id: &NodeId) -> (r: Vec<EdgeInfo>)
        requires
            self.wf(),
        ensures
            describes_all(self.st(), r@, inner_edges(self.st(), seq![node_id@])),
    {
        let sg = NodePath::root().child(*node_id);
        assert(sg@ =~= seq![node_id@]);
        let children = self.states.path_index_children_of(&sg);
        let ghost st = self.st();
        let ghost ch = key_seq(children@);
        let ghost mut ids: Seq<u128> = Seq::empty();
        let mut result: Vec<EdgeInfo> = Vec::new();
        let mut i: usize = 0;
        proof {
            assert(child_parts(st, ch, sg@, ch.subrange(0, 0)) =~= Seq::<Seq<u128>>::empty());
        }
        while i < children.len()
            invariant
                self.wf(),
                st == self.st(),
                ch == st.children(sg@),
                ch == key_seq(children@),
                i <= children@.len(),
                ids == child_parts(st, ch, sg@, ch.subrange(0, i as int)).flatten(),
                describes_all(st, result@, ids),
            decreases children@.len() - i,
        {
            let cp = sg.child(children[i]);
            let n = self.states.input_slot_count(&cp);
            let ghost slots = st.inputs(cp@);
            let ghost outer = ids;
            let mut j: usize = 0;
            proof {
                assert(slot_parts(st, ch, slots.subrange(0, 0)) =~= Seq::<Seq<u128>>::empty());
                assert(ids =~= outer + slot_parts(st, ch, slots.subrange(0, 0)).flatten());
            }
            while j < n
                invariant
                    self.wf(),
                    st == self.st(),
                    ch == key_seq(children@),
                    slots == st.inputs(cp@),
                    n == slots.len(),
                    j <= n,
                    ids == outer + slot_parts(st, ch, slots.subrange(0, j as int)).flatten(),
                    describes_all(st, result@, ids),
                decreases n - j,
            {
                let sid = match self.states.input_slot(&cp, j) {
                    Some(slot) => slot.id,
                    None => {
                        return result;
                    },
                };
                let edges = self.states.edges_for_input(&sid);
                let ghost es = key_seq(edges@);
                let ghost mid = ids;
                let mut k: usize = 0;
                proof {
                    assert(es.subrange(0, 0) =~= Seq::<u128>::empty());
                    assert(ids =~= mid + edges_from(st, ch, es.subrange(0, 0)));
                }
                while k < edges.len()
                    invariant
                        self.wf(),
                        st == self.st(),
                        ch == key_seq(children@),
                        es == key_seq(edges@),
                        k <= edges@.len(),
                        ids == mid + edges_from(st, ch, es.subrange(0, k as int)),
                        describes_all(st, result@, ids),
                    decreases edges@.len() - k,
                {
                    let ghost pre = ids;
                    proof {
                        assert(es.subrange(0, k + 1).drop_last() =~= es.subrange(0, k as int));
                        assert(es.subrange(0, k + 1).last() == es[k as int]);
                    }
                    match self.states.get_edge(&edges[k]) {
                        None => {},
                        Some(e) => {
                            let inside = match e.from_node.leaf() {
                                Some(id) => vec_has_key(&children, &id),
                                None => false,
                            };
                            if inside {
                                let info = EdgeInfo {
                                    id: edges[k],
                                    from_node: e.from_node.clone(),
                                    from_output: e.from_output_slot_index,
                                    to_node: e.to_node.clone(),
                                    to_input: e.to_input_slot_index,
                                };
                                let ghost rpre = result@;
                                result.push(info);
                                proof {
                                    ids = ids.push(es[k as int]);
                                    assert forall|t: int| 0 <= t < result@.len() implies describes(st, #[trigger] result@[t], ids[t]) by {
                                        if t < pre.len() {
                                            assert(result@[t] == rpre[t]);
                                        }
                                    }
                                }
                            }
                        },
                    }
                    proof {
                        lemma_edges_from_step(st, ch, es.subrange(0, k + 1));
                        assert(ids =~= mid + edges_from(st, ch, es.subrange(0, k + 1)));
                    }
                    k = k + 1;
                }
                proof {
                    assert(es.subrange(0, es.len() as int) =~= es);
                    let sp = slot_parts(st, ch, slots.subrange(0, j + 1));
                    assert(sp =~= slot_parts(st, ch, slots.subrange(0, j as int)).push(edges_from(st, ch, st.input_edges(sid@))));
                    slot_parts(st, ch, slots.subrange(0, j as int)).lemma_flatten_push(edges_from(st, ch, st.input_edges(sid@)));
                    assert(ids =~= outer + sp.flatten());
                }
                j = j + 1;
            }
            proof {
                assert(slots.subrange(0, n as int) =~= slots);
                assert(cp@ == sg@.push(ch[i as int]));
                let cpart = child_parts(st, ch, sg@, ch.subrange(0, i + 1));
                assert(cpart =~= child_parts(st, ch, sg@, ch.subrange(0, i as int)).push(node_edges_from(st, ch, cp@)));
                child_parts(st, ch, sg@, ch.subrange(0, i as int)).lemma_flatten_push(node_edges_from(st, ch, cp@));
                assert(ids =~= cpart.flatten());
            }
            i = i + 1;
        }
        proof {
            assert(ch.subrange(0, children@.len() as int) =~= ch);
        }
        result
    }
}

impl SubGraphNode {
    /// Adds a port to this SubGraph's input proxy, the SubGraph standing
    /// at `sg_path`: an input slot taking up to `max_connections` edges and
    /// its output twin. The SubGraph's own external slots are left as they
    /// are.
    pub fn add_input_multi<D, V>(
        &self,
        sg_path: &NodePath,
        graph: &mut NodeGraph<D, V>,
        label: &'static str,
        data_type: DataType,
        max_connections: Option<usize>,
        inspector_visible: bool,
    ) -> (r: Result<(), String>)
        requires
            old(graph).wf(),
        ensures
            final(graph).wf(),
            r is Ok,
            ({
                let inp = sg_path@.push(self.input_proxy_id@);
                let st = old(graph).st();
                let next = final(graph).st();
                &&& input_appended(next.inputs(inp), st.inputs(inp), label, data_type, max_connections, inspector_visible)
                &&& output_appended(next.outputs(inp), st.outputs(inp), label, data_type)
                &&& forall|q: Seq<u128>| q != inp ==> #[trigger] next.inputs(q) == st.inputs(q)
                &&& forall|q: Seq<u128>| q != inp ==> #[trigger] next.outputs(q) == st.outputs(q)
                &&& next.node_map() == st.node_map()
                &&& same_wiring(&next, &st)
                &&& next.changed() == st.changed()
                &&& advanced(st.generation(), next.generation())
            }),
            final(graph).subgraph_map() == old(graph).subgraph_map(),
            final(graph).error_map() == old(graph).error_map(),
            final(graph).removed_ids() == old(graph).removed_ids(),
    {
        let inp = sg_path.child(self.input_proxy_id);
        let ghost s0 = graph.states;
        graph.states.add_input_slot(&inp, label, data_type, max_connections, inspector_visible);
        let ghost s1 = graph.states;
        graph.states.add_output_slot(&inp, label, data_type);
        proof {
            assert(graph.st().inputs(inp@) == s1.inputs(inp@));
            assert forall|q: Seq<u128>| q != inp@ implies #[trigger] graph.st().inputs(q) == s0.inputs(q) by {
                assert(s1.inputs(q) == s0.inputs(q));
            }
        }
        Ok(())
    }
}

} // verus!
