//! Runtime state of every node instance: node records, slot tables, edges
//! with their lookup indexes, the changed-node set and the children index.

use vstd::prelude::*;
use crate::assoc::{
    key_seq, lemma_drop_set_disjoint, lemma_drop_set_then_without, lemma_drop_set_union, seq_drop_set, seq_without,
    vec_copy_keys, vec_key_position, vec_without_key, AssocMap, MapKey,
};
use crate::data_type::DataType;
use crate::ids::{EdgeId, InputSlotId, NodeId, OutputSlotId};
use crate::meta::{InterfaceNodeData, SlotDef};
use crate::node_path::NodePath;
use crate::path_index::PathIndex;

verus! {

broadcast use {vstd::map_lib::group_map_properties, vstd::seq_lib::group_seq_properties};

/// `std::any::TypeId`, made known to the verifier as an opaque value that
/// node records carry through unread.
#[verifier::external_type_specification]
#[verifier::external_body]
pub struct ExTypeId(std::any::TypeId);

/// A directed connection from an output slot to an input slot. Both
/// endpoints carry the full path of their node; the slot ids survive slot
/// reordering.
#[derive(Debug)]
pub struct Edge {
    pub from_node: NodePath,
    pub from_output_slot_index: usize,
    pub from_output_slot_id: OutputSlotId,
    pub to_node: NodePath,
    pub to_input_slot_index: usize,
    pub to_input_slot_id: InputSlotId,
}

impl Clone for Edge {
    fn clone(&self) -> (r: Self)
        ensures
            r.from_node@ == self.from_node@,
            r.from_output_slot_index == self.from_output_slot_index,
            r.from_output_slot_id == self.from_output_slot_id,
            r.to_node@ == self.to_node@,
            r.to_input_slot_index == self.to_input_slot_index,
            r.to_input_slot_id == self.to_input_slot_id,
    {
        Edge {
            from_node: self.from_node.clone(),
            from_output_slot_index: self.from_output_slot_index,
            from_output_slot_id: self.from_output_slot_id,
            to_node: self.to_node.clone(),
            to_input_slot_index: self.to_input_slot_index,
            to_input_slot_id: self.to_input_slot_id,
        }
    }
}

/// The endpoints of an edge, by view.
pub struct EdgeShape {
    pub from_node: Seq<u128>,
    pub from_output_slot_index: usize,
    pub from_output_slot_id: u128,
    pub to_node: Seq<u128>,
    pub to_input_slot_index: usize,
    pub to_input_slot_id: u128,
}

impl View for Edge {
    type V = EdgeShape;

    open spec fn view(&self) -> EdgeShape {
        EdgeShape {
            from_node: self.from_node@,
            from_output_slot_index: self.from_output_slot_index,
            from_output_slot_id: self.from_output_slot_id@,
            to_node: self.to_node@,
            to_input_slot_index: self.to_input_slot_index,
            to_input_slot_id: self.to_input_slot_id@,
        }
    }
}

/// The data held by a node: an interface node's direction and locked
/// ports, or an ordinary value.
pub enum NodeData<D> {
    Interface(InterfaceNodeData),
    Value(D),
}

/// Runtime state of a single node.
pub struct NodeState<D> {
    /// The node type name (the name it was registered under).
    pub type_label: &'static str,
    /// The Rust type of the node, where it is known.
    pub rust_type_id: Option<std::any::TypeId>,
    /// Current data value.
    pub data: Option<NodeData<D>>,
}

/// Runtime state of an input slot.
pub struct InputSlotState<V> {
    pub id: InputSlotId,
    pub label: &'static str,
    pub data_type: DataType,
    pub max_connections: Option<usize>,
    pub inspector_visible: bool,
    pub default_value: Option<V>,
}

impl<D> NodeState<D> {
    /// A node record of type `type_label` holding `data`.
    pub fn new(type_label: &'static str, rust_type_id: Option<std::any::TypeId>, data: Option<NodeData<D>>) -> (r: Self)
        ensures
            r.type_label == type_label,
            r.rust_type_id == rust_type_id,
            r.data == data,
    {
        NodeState { type_label, rust_type_id, data }
    }
}

impl<V> Default for InputSlotState<V> {
    /// A slot under a fresh id with an empty label, of type `Number`,
    /// taking any number of edges, shown in inspectors, with no default.
    fn default() -> (r: Self)
        ensures
            r.label@ == ""@,
            r.data_type == DataType::Number,
            r.max_connections is None,
            r.inspector_visible,
            r.default_value is None,
    {
        proof {
            reveal_strlit("");
        }
        InputSlotState {
            id: InputSlotId::new(),
            label: "",
            data_type: DataType::default(),
            max_connections: None,
            inspector_visible: true,
            default_value: None,
        }
    }
}

/// Runtime state of an output slot.
pub struct OutputSlotState {
    pub id: OutputSlotId,
    pub label: &'static str,
    pub data_type: DataType,
}

/// `e` with its target index moved up by one when it points at `p` at
/// index `from` or above.
pub open spec fn shift_target_up(e: Edge, p: Seq<u128>, from: int) -> Edge {
    if e.to_node@ == p && e.to_input_slot_index >= from {
        Edge { to_input_slot_index: (e.to_input_slot_index + 1) as usize, ..e }
    } else {
        e
    }
}

/// `e` with its source index moved up by one when it leaves `p` at index
/// `from` or above.
pub open spec fn shift_source_up(e: Edge, p: Seq<u128>, from: int) -> Edge {
    if e.from_node@ == p && e.from_output_slot_index >= from {
        Edge { from_output_slot_index: (e.from_output_slot_index + 1) as usize, ..e }
    } else {
        e
    }
}

/// `e` with its target index moved down by one when it points at `p`
/// above index `above`.
pub open spec fn shift_target_down(e: Edge, p: Seq<u128>, above: int) -> Edge {
    if e.to_node@ == p && e.to_input_slot_index > above {
        Edge { to_input_slot_index: (e.to_input_slot_index - 1) as usize, ..e }
    } else {
        e
    }
}

/// `a` and `b` join the same slots of the same nodes.
pub open spec fn same_ends(a: Edge, b: Edge) -> bool {
    &&& a.from_node@ == b.from_node@
    &&& a.to_node@ == b.to_node@
    &&& a.from_output_slot_id == b.from_output_slot_id
    &&& a.to_input_slot_id == b.to_input_slot_id
}

/// `e` with its source index moved down by one when it leaves `p` above
/// index `above`.
pub open spec fn shift_source_down(e: Edge, p: Seq<u128>, above: int) -> Edge {
    if e.from_node@ == p && e.from_output_slot_index > above {
        Edge { from_output_slot_index: (e.from_output_slot_index - 1) as usize, ..e }
    } else {
        e
    }
}

/// Which edge endpoint index moves, and in which direction.
#[derive(Clone, Copy, PartialEq, Eq, Structural)]
pub enum ShiftKind {
    TargetUp,
    SourceUp,
    TargetDown,
    SourceDown,
}

/// Manages all node states of a graph.
pub struct NodeStates<D, V> {
    nodes: AssocMap<NodePath, NodeState<D>>,
    input_slots: AssocMap<NodePath, Vec<InputSlotState<V>>>,
    output_slots: AssocMap<NodePath, Vec<OutputSlotState>>,
    edges: AssocMap<EdgeId, Edge>,
    input_connections: AssocMap<InputSlotId, Vec<EdgeId>>,
    output_connections: AssocMap<OutputSlotId, Vec<EdgeId>>,
    outgoing_edges: AssocMap<NodePath, Vec<EdgeId>>,
    incoming_edges: AssocMap<NodePath, Vec<EdgeId>>,
    changed_nodes: AssocMap<NodePath, ()>,
    path_index: PathIndex,
    generation: u64,
}

/// Each id in the lists `ic`, `oc`, `og` and `inc` names an edge of `em`
/// whose input slot, output slot, source node or target node, in that order,
/// is the list's key.
pub open spec fn lists_fit(
    em: Map<u128, Edge>,
    ic: Map<u128, Vec<EdgeId>>,
    oc: Map<u128, Vec<EdgeId>>,
    og: Map<Seq<u128>, Vec<EdgeId>>,
    inc: Map<Seq<u128>, Vec<EdgeId>>,
) -> bool {
    &&& forall|k: u128, x: u128| #[trigger] list_at(ic, k).contains(x) ==> em.dom().contains(x) && em[x].to_input_slot_id@ == k
    &&& forall|k: u128, x: u128| #[trigger] list_at(oc, k).contains(x) ==> em.dom().contains(x) && em[x].from_output_slot_id@ == k
    &&& forall|p: Seq<u128>, x: u128| #[trigger] list_at(og, p).contains(x) ==> em.dom().contains(x) && em[x].from_node@ == p
    &&& forall|p: Seq<u128>, x: u128| #[trigger] list_at(inc, p).contains(x) ==> em.dom().contains(x) && em[x].to_node@ == p
}

/// Ordered edge list kept under `k` in `m`, empty when there is none.
pub open spec fn list_at<K>(m: Map<K, Vec<EdgeId>>, k: K) -> Seq<u128> {
    if m.dom().contains(k) { key_seq(m[k]@) } else { Seq::empty() }
}

/// The generation `b` is past `a`, unless `a` has reached the ceiling.
pub open spec fn advanced(a: u64, b: u64) -> bool {
    &&& a <= b
    &&& a < u64::MAX ==> a < b
}

/// `s` with one more edge id at the end.
pub open spec fn appended(s: Seq<u128>, e: u128) -> Seq<u128> {
    s.push(e)
}

/// `s` without any occurrence of `e`.
pub open spec fn without(s: Seq<u128>, e: u128) -> Seq<u128> {
    seq_without(s, e)
}

/// The edge `x` of `m` leaves or enters the node at `p`.
pub open spec fn gone_edge(m: Map<u128, Edge>, p: Seq<u128>, x: u128) -> bool {
    m.dom().contains(x) && (m[x].from_node@ == p || m[x].to_node@ == p)
}

/// Appends `e` to the list kept under `k`.
fn push_edge_to<K: MapKey>(m: &mut AssocMap<K, Vec<EdgeId>>, k: &K, e: EdgeId)
    requires
        old(m).wf(),
    ensures
        final(m).wf(),
        forall|x: K::V| #[trigger] list_at(final(m)@, x) == if x == k@ {
            list_at(old(m)@, x).push(e@)
        } else {
            list_at(old(m)@, x)
        },
{
    let mut list = match m.remove(k) {
        Some(v) => v,
        None => Vec::new(),
    };
    let ghost before = list@;
    list.push(e);
    assert(key_seq(list@) =~= key_seq(before).push(e@));
    m.insert(k.copy_key(), list);
}

/// Drops `e` from the list kept under `k`, where there is one.
fn drop_edge_from<K: MapKey>(m: &mut AssocMap<K, Vec<EdgeId>>, k: &K, e: &EdgeId)
    requires
        old(m).wf(),
    ensures
        final(m).wf(),
        forall|x: K::V| #[trigger] list_at(final(m)@, x) == if x == k@ {
            without(list_at(old(m)@, x), e@)
        } else {
            list_at(old(m)@, x)
        },
{
    match m.find(k) {
        None => {
        },
        Some(i) => {
            let kept = vec_without_key(m.value(i), e);
            m.set_value(i, kept);
        },
    }
}

/// What is left of `s` after dropping `e` is what `s` holds besides `e`.
pub proof fn lemma_without_contains(s: Seq<u128>, e: u128, x: u128)
    ensures
        without(s, e).contains(x) <==> (s.contains(x) && x != e),
    decreases s.len(),
{
    if s.len() > 0 {
        lemma_without_contains(s.drop_last(), e, x);
        let w = without(s.drop_last(), e);
        if s.contains(x) && x != e && !s.drop_last().contains(x) {
            assert(s.last() == x) by {
                let i = choose|i: int| 0 <= i < s.len() && s[i] == x;
                if i < s.len() - 1 {
                    assert(s.drop_last()[i] == x);
                }
            }
            assert(w.push(s.last())[w.len() as int] == x);
        }
        if s.last() != e && w.push(s.last()).contains(x) && x != s.last() {
            let i = choose|i: int| 0 <= i < w.push(s.last()).len() && w.push(s.last())[i] == x;
            assert(w[i] == x);
        }
        if s.drop_last().contains(x) {
            let i = choose|i: int| 0 <= i < s.drop_last().len() && s.drop_last()[i] == x;
            assert(s[i] == x);
        }
    }
}

/// Moving an element within `s` keeps the elements it holds.
pub proof fn lemma_moved_contains(s: Seq<u128>, x: u128, n: int, y: u128)
    requires
        s.contains(x),
        n >= 0,
    ensures
        moved(s, x, n).contains(y) ==> s.contains(y),
{
    lemma_first_index(s, x);
    let f = first_index(s, x);
    let m = s.remove(f);
    let at = if n < m.len() { n } else { m.len() as int };
    if moved(s, x, n).contains(y) && y != x {
        let i = choose|i: int| 0 <= i < m.insert(at, x).len() && m.insert(at, x)[i] == y;
        assert(m.insert(at, x)[at] == x);
        assert(i != at);
        let j = if i < at { i } else { i - 1 };
        assert(m.insert(at, x)[i] == m[j]);
        let k = if j < f { j } else { j + 1 };
        assert(m[j] == s[k]);
    }
}

/// A sequence that holds `x` holds it first at `first_index`.
pub proof fn lemma_first_index(s: Seq<u128>, x: u128)
    requires
        s.contains(x),
    ensures
        0 <= first_index(s, x) < s.len(),
        s[first_index(s, x)] == x,
        forall|j: int| 0 <= j < first_index(s, x) ==> s[j] != x,
    decreases s.len(),
{
    if s[0] == x {
        assert(0 <= 0 < s.len() && s[0] == x && forall|j: int| 0 <= j < 0 ==> s[j] != x);
    } else {
        let t = s.drop_first();
        let i = choose|i: int| 0 <= i < s.len() && s[i] == x;
        assert(t[i - 1] == x);
        lemma_first_index(t, x);
        let w = first_index(t, x) + 1;
        assert forall|j: int| 0 <= j < w implies s[j] != x by {
            if j > 0 {
                assert(s[j] == t[j - 1]);
            }
        }
        assert(0 <= w < s.len() && s[w] == x && forall|j: int| 0 <= j < w ==> s[j] != x);
    }
}

/// Position of the first occurrence of `x` in `s`.
pub open spec fn first_index(s: Seq<u128>, x: u128) -> int {
    choose|i: int| 0 <= i < s.len() && s[i] == x && forall|j: int| 0 <= j < i ==> s[j] != x
}

/// `s` with the first occurrence of `x` taken out and put back at `n`,
/// or at the end when `n` is past it.
pub open spec fn moved(s: Seq<u128>, x: u128, n: int) -> Seq<u128> {
    let m = s.remove(first_index(s, x));
    m.insert(if n < m.len() { n } else { m.len() as int }, x)
}

/// Moves `e` within the list kept under `k` to position `new_index`.
/// `false`, with nothing changed, when the list does not hold `e`.
fn move_edge_in<K: MapKey>(m: &mut AssocMap<K, Vec<EdgeId>>, k: &K, e: &EdgeId, new_index: usize) -> (r: bool)
    requires
        old(m).wf(),
    ensures
        final(m).wf(),
        r == list_at(old(m)@, k@).contains(e@),
        !r ==> *final(m) == *old(m),
        r ==> forall|x: K::V| #[trigger] list_at(final(m)@, x) == if x == k@ {
            moved(list_at(old(m)@, x), e@, new_index as int)
        } else {
            list_at(old(m)@, x)
        },
{
    let i = match m.find(k) {
        None => {
            return false;
        },
        Some(i) => i,
    };
    let mut list = vec_copy_keys(m.value(i));
    let ghost l = key_seq(list@);
    let pos = match vec_key_position(&list, e) {
        None => {
            return false;
        },
        Some(pos) => pos,
    };
    proof {
        assert(l[pos as int] == e@);
        assert(first_index(l, e@) == pos) by {
            let f = first_index(l, e@);
            assert(0 <= pos < l.len() && l[pos as int] == e@ && forall|j: int| 0 <= j < pos ==> l[j] != e@);
            if f < pos {
                assert(l[f] == e@);
            } else if f > pos {
                assert(l[pos as int] != e@);
            }
        }
    }
    let id = list.remove(pos);
    assert(key_seq(list@) =~= l.remove(pos as int));
    let at = if new_index < list.len() { new_index } else { list.len() };
    list.insert(at, id);
    assert(key_seq(list@) =~= l.remove(pos as int).insert(at as int, e@));
    m.set_value(i, list);
    true
}

/// Dropping `k` from a filtered list is filtering `k` out as well.
pub proof fn lemma_without_filter(l: Seq<u128>, f: spec_fn(u128) -> bool, k: u128)
    ensures
        without(l.filter(f), k) == l.filter(|y: u128| f(y) && y != k),
    decreases l.len(),
{
    reveal(Seq::filter);
    let g = |y: u128| f(y) && y != k;
    if l.len() > 0 {
        lemma_without_filter(l.drop_last(), f, k);
        assert(l.filter(f) == if f(l.last()) { l.drop_last().filter(f).push(l.last()) } else { l.drop_last().filter(f) });
        assert(l.filter(g) == if g(l.last()) { l.drop_last().filter(g).push(l.last()) } else { l.drop_last().filter(g) });
        if f(l.last()) {
            let w = l.drop_last().filter(f).push(l.last());
            assert(w.drop_last() =~= l.drop_last().filter(f));
        }
    } else {
        assert(l.filter(f) =~= Seq::<u128>::empty());
        assert(l.filter(g) =~= Seq::<u128>::empty());
    }
}

/// One list across one removal: `lc` is `lo` filtered by `kc`; `ln` is
/// `lc`, less `k` when `hit`; `kn` is `kc` that also drops `k` when `hit`.
proof fn lemma_prune_list(lo: Seq<u128>, lc: Seq<u128>, ln: Seq<u128>, kc: spec_fn(u128) -> bool, kn: spec_fn(u128) -> bool, k: u128, hit: bool)
    requires
        lc == lo.filter(kc),
        ln == if hit { without(lc, k) } else { lc },
        forall|y: u128| #[trigger] kn(y) == (kc(y) && !(hit && y == k)),
    ensures
        ln == lo.filter(kn),
{
    if hit {
        lemma_without_filter(lo, kc, k);
        assert(kn =~= (|y: u128| kc(y) && y != k));
    } else {
        assert(kn =~= kc);
    }
}

/// Two filters one after the other are one filter by both tests.
proof fn lemma_filter_filter(l: Seq<u128>, f: spec_fn(u128) -> bool, g: spec_fn(u128) -> bool)
    ensures
        l.filter(f).filter(g) == l.filter(|y: u128| f(y) && g(y)),
    decreases l.len(),
{
    reveal(Seq::filter);
    let h = |y: u128| f(y) && g(y);
    if l.len() > 0 {
        lemma_filter_filter(l.drop_last(), f, g);
        if f(l.last()) {
            let w = l.drop_last().filter(f).push(l.last());
            assert(w.drop_last() =~= l.drop_last().filter(f));
            assert(w.last() == l.last());
        }
    } else {
        assert(l.filter(f) =~= Seq::<u128>::empty());
        assert(l.filter(h) =~= Seq::<u128>::empty());
        assert(l.filter(f).filter(g) =~= Seq::<u128>::empty());
    }
}

/// One list across two prunings.
proof fn lemma_prune_compose(la: Seq<u128>, lb: Seq<u128>, lc: Seq<u128>, kb: spec_fn(u128) -> bool, kc: spec_fn(u128) -> bool, kca: spec_fn(u128) -> bool)
    requires
        lb == la.filter(kb),
        lc == lb.filter(kc),
        forall|y: u128| #[trigger] kca(y) == (kb(y) && kc(y)),
    ensures
        lc == la.filter(kca),
{
    lemma_filter_filter(la, kb, kc);
    assert(kca =~= (|y: u128| kb(y) && kc(y)));
}

/// Filtering by a test that holds of everything keeps the list.
pub proof fn lemma_filter_all(l: Seq<u128>, f: spec_fn(u128) -> bool)
    requires
        forall|y: u128| #[trigger] f(y),
    ensures
        l.filter(f) == l,
    decreases l.len(),
{
    reveal(Seq::filter);
    if l.len() > 0 {
        lemma_filter_all(l.drop_last(), f);
        assert(l.drop_last().push(l.last()) =~= l);
    } else {
        assert(l.filter(f) =~= l);
    }
}

impl<D, V> NodeStates<D, V> {
    /// The tables are well formed.
    pub closed spec fn wf(&self) -> bool {
        &&& self.nodes.wf()
        &&& self.input_slots.wf()
        &&& self.output_slots.wf()
        &&& self.edges.wf()
        &&& self.input_connections.wf()
        &&& self.output_connections.wf()
        &&& self.outgoing_edges.wf()
        &&& self.incoming_edges.wf()
        &&& self.changed_nodes.wf()
        &&& self.path_index.wf()
        &&& self.lists_name_edges()
    }

    /// Each id in a connection list names a stored edge whose end that the
    /// list indexes is the list's key.
    pub closed spec fn lists_name_edges(&self) -> bool {
        lists_fit(
            self.edges@,
            self.input_connections@,
            self.output_connections@,
            self.outgoing_edges@,
            self.incoming_edges@,
        )
    }

    /// Moving an id within the list of output slot `k` keeps the lists
    /// naming their edges.
    proof fn lemma_lists_after_move_output(prev: &Self, next: &Self, k: u128, e: u128, n: int)
        requires
            n >= 0,
            prev.lists_name_edges(),
            list_at(prev.output_connections@, k).contains(e),
            next.edges == prev.edges,
            next.input_connections == prev.input_connections,
            next.outgoing_edges == prev.outgoing_edges,
            next.incoming_edges == prev.incoming_edges,
            forall|x: u128| #[trigger] list_at(next.output_connections@, x) == if x == k {
                moved(list_at(prev.output_connections@, x), e, n)
            } else {
                list_at(prev.output_connections@, x)
            },
        ensures
            next.lists_name_edges(),
    {
        assert forall|kk: u128, y: u128| #[trigger] list_at(next.output_connections@, kk).contains(y) implies next.edges@.dom().contains(y)
            && next.edges@[y].from_output_slot_id@ == kk by {
            if kk == k {
                lemma_moved_contains(list_at(prev.output_connections@, kk), e, n, y);
            }
            assert(list_at(prev.output_connections@, kk).contains(y));
        }
    }

    /// Moving an id within the list of input slot `k` keeps the lists naming
    /// their edges.
    proof fn lemma_lists_after_move_input(prev: &Self, next: &Self, k: u128, e: u128, n: int)
        requires
            n >= 0,
            prev.lists_name_edges(),
            list_at(prev.input_connections@, k).contains(e),
            next.edges == prev.edges,
            next.output_connections == prev.output_connections,
            next.outgoing_edges == prev.outgoing_edges,
            next.incoming_edges == prev.incoming_edges,
            forall|x: u128| #[trigger] list_at(next.input_connections@, x) == if x == k {
                moved(list_at(prev.input_connections@, x), e, n)
            } else {
                list_at(prev.input_connections@, x)
            },
        ensures
            next.lists_name_edges(),
    {
        assert forall|kk: u128, y: u128| #[trigger] list_at(next.input_connections@, kk).contains(y) implies next.edges@.dom().contains(y)
            && next.edges@[y].to_input_slot_id@ == kk by {
            if kk == k {
                lemma_moved_contains(list_at(prev.input_connections@, kk), e, n, y);
            }
            assert(list_at(prev.input_connections@, kk).contains(y));
        }
    }

    /// A well-formed state's connection lists name only its stored edges.
    pub proof fn lemma_wf_lists(&self)
        requires
            self.wf(),
        ensures
            forall|k: u128, x: u128| #[trigger] self.input_edges(k).contains(x) ==> self.edge_map().dom().contains(x)
                && self.edge_map()[x].to_input_slot_id@ == k,
            forall|k: u128, x: u128| #[trigger] self.output_edges(k).contains(x) ==> self.edge_map().dom().contains(x)
                && self.edge_map()[x].from_output_slot_id@ == k,
            forall|p: Seq<u128>, x: u128| #[trigger] self.outgoing(p).contains(x) ==> self.edge_map().dom().contains(x)
                && self.edge_map()[x].from_node@ == p,
            forall|p: Seq<u128>, x: u128| #[trigger] self.incoming(p).contains(x) ==> self.edge_map().dom().contains(x)
                && self.edge_map()[x].to_node@ == p,
    {
    }

    /// Changing stored edges without moving any of their ends, and leaving
    /// the lists alone, keeps the lists naming their edges.
    proof fn lemma_lists_keep(prev: &Self, next: &Self)
        requires
            prev.lists_name_edges(),
            next.input_connections == prev.input_connections,
            next.output_connections == prev.output_connections,
            next.outgoing_edges == prev.outgoing_edges,
            next.incoming_edges == prev.incoming_edges,
            next.edge_map().dom() == prev.edge_map().dom(),
            forall|x: u128| #[trigger] next.edge_map().dom().contains(x) ==> same_ends(next.edge_map()[x], prev.edge_map()[x]),
        ensures
            next.lists_name_edges(),
    {
        assert forall|k: u128, x: u128| #[trigger] next.input_edges(k).contains(x) implies next.edge_map().dom().contains(x)
            && next.edge_map()[x].to_input_slot_id@ == k by {
            assert(prev.input_edges(k).contains(x));
        }
        assert forall|k: u128, x: u128| #[trigger] next.output_edges(k).contains(x) implies next.edge_map().dom().contains(x)
            && next.edge_map()[x].from_output_slot_id@ == k by {
            assert(prev.output_edges(k).contains(x));
        }
        assert forall|p: Seq<u128>, x: u128| #[trigger] next.outgoing(p).contains(x) implies next.edge_map().dom().contains(x)
            && next.edge_map()[x].from_node@ == p by {
            assert(prev.outgoing(p).contains(x));
        }
        assert forall|p: Seq<u128>, x: u128| #[trigger] next.incoming(p).contains(x) implies next.edge_map().dom().contains(x)
            && next.edge_map()[x].to_node@ == p by {
            assert(prev.incoming(p).contains(x));
        }
    }

    /// Adding an edge under an id no edge holds keeps the lists naming their
    /// edges.
    proof fn lemma_lists_after_add(prev: &Self, next: &Self, id: u128, edge: Edge)
        requires
            prev.lists_name_edges(),
            !prev.edge_map().dom().contains(id),
            next.edge_added(prev, id, edge),
        ensures
            next.lists_name_edges(),
    {
        assert forall|k: u128, x: u128| #[trigger] list_at(next.input_connections@, k).contains(x) implies next.edges@.dom().contains(x)
            && next.edges@[x].to_input_slot_id@ == k by {
            assert(next.input_edges(k).contains(x));
            if x != id {
                if k == edge.to_input_slot_id@ {
                    let i = choose|i: int| 0 <= i < next.input_edges(k).len() && next.input_edges(k)[i] == x;
                    assert(prev.input_edges(k)[i] == x);
                }
                assert(prev.input_edges(k).contains(x));
            } else if k != edge.to_input_slot_id@ {
                assert(prev.input_edges(k).contains(x));
            }
        }
        assert forall|k: u128, x: u128| #[trigger] list_at(next.output_connections@, k).contains(x) implies next.edges@.dom().contains(x)
            && next.edges@[x].from_output_slot_id@ == k by {
            assert(next.output_edges(k).contains(x));
            if x != id {
                if k == edge.from_output_slot_id@ {
                    let i = choose|i: int| 0 <= i < next.output_edges(k).len() && next.output_edges(k)[i] == x;
                    assert(prev.output_edges(k)[i] == x);
                }
                assert(prev.output_edges(k).contains(x));
            } else if k != edge.from_output_slot_id@ {
                assert(prev.output_edges(k).contains(x));
            }
        }
        assert forall|p: Seq<u128>, x: u128| #[trigger] list_at(next.outgoing_edges@, p).contains(x) implies next.edges@.dom().contains(x)
            && next.edges@[x].from_node@ == p by {
            assert(next.outgoing(p).contains(x));
            if x != id {
                if p == edge.from_node@ {
                    let i = choose|i: int| 0 <= i < next.outgoing(p).len() && next.outgoing(p)[i] == x;
                    assert(prev.outgoing(p)[i] == x);
                }
                assert(prev.outgoing(p).contains(x));
            } else if p != edge.from_node@ {
                assert(prev.outgoing(p).contains(x));
            }
        }
        assert forall|p: Seq<u128>, x: u128| #[trigger] list_at(next.incoming_edges@, p).contains(x) implies next.edges@.dom().contains(x)
            && next.edges@[x].to_node@ == p by {
            assert(next.incoming(p).contains(x));
            if x != id {
                if p == edge.to_node@ {
                    let i = choose|i: int| 0 <= i < next.incoming(p).len() && next.incoming(p)[i] == x;
                    assert(prev.incoming(p)[i] == x);
                }
                assert(prev.incoming(p).contains(x));
            } else if p != edge.to_node@ {
                assert(prev.incoming(p).contains(x));
            }
        }
    }

    /// Removing a stored edge and dropping its id from the lists of its ends
    /// keeps the lists naming their edges.
    proof fn lemma_lists_after_remove(prev: &Self, next: &Self, id: u128)
        requires
            prev.lists_name_edges(),
            prev.edge_map().dom().contains(id),
            next.edge_map() == prev.edge_map().remove(id),
            forall|s: u128| #[trigger] next.input_edges(s) == if s == prev.edge_map()[id].to_input_slot_id@ {
                without(prev.input_edges(s), id)
            } else {
                prev.input_edges(s)
            },
            forall|s: u128| #[trigger] next.output_edges(s) == if s == prev.edge_map()[id].from_output_slot_id@ {
                without(prev.output_edges(s), id)
            } else {
                prev.output_edges(s)
            },
            forall|p: Seq<u128>| #[trigger] next.outgoing(p) == if p == prev.edge_map()[id].from_node@ {
                without(prev.outgoing(p), id)
            } else {
                prev.outgoing(p)
            },
            forall|p: Seq<u128>| #[trigger] next.incoming(p) == if p == prev.edge_map()[id].to_node@ {
                without(prev.incoming(p), id)
            } else {
                prev.incoming(p)
            },
        ensures
            next.lists_name_edges(),
    {
        let e = prev.edge_map()[id];
        assert forall|k: u128, x: u128| #[trigger] list_at(next.input_connections@, k).contains(x) implies next.edges@.dom().contains(x)
            && next.edges@[x].to_input_slot_id@ == k by {
            assert(next.input_edges(k).contains(x));
            if k == e.to_input_slot_id@ {
                lemma_without_contains(prev.input_edges(k), id, x);
            }
            assert(prev.input_edges(k).contains(x));
        }
        assert forall|k: u128, x: u128| #[trigger] list_at(next.output_connections@, k).contains(x) implies next.edges@.dom().contains(x)
            && next.edges@[x].from_output_slot_id@ == k by {
            assert(next.output_edges(k).contains(x));
            if k == e.from_output_slot_id@ {
                lemma_without_contains(prev.output_edges(k), id, x);
            }
            assert(prev.output_edges(k).contains(x));
        }
        assert forall|p: Seq<u128>, x: u128| #[trigger] list_at(next.outgoing_edges@, p).contains(x) implies next.edges@.dom().contains(x)
            && next.edges@[x].from_node@ == p by {
            assert(next.outgoing(p).contains(x));
            if p == e.from_node@ {
                lemma_without_contains(prev.outgoing(p), id, x);
            }
            assert(prev.outgoing(p).contains(x));
        }
        assert forall|p: Seq<u128>, x: u128| #[trigger] list_at(next.incoming_edges@, p).contains(x) implies next.edges@.dom().contains(x)
            && next.edges@[x].to_node@ == p by {
            assert(next.incoming(p).contains(x));
            if p == e.to_node@ {
                lemma_without_contains(prev.incoming(p), id, x);
            }
            assert(prev.incoming(p).contains(x));
        }
    }

    /// Node records by path.
    pub closed spec fn node_map(&self) -> Map<Seq<u128>, NodeState<D>> {
        self.nodes@
    }

    /// Input slots of the node at `p`, by index.
    pub closed spec fn inputs(&self, p: Seq<u128>) -> Seq<InputSlotState<V>> {
        if self.input_slots@.dom().contains(p) {
            self.input_slots@[p]@
        } else {
            Seq::empty()
        }
    }

    /// Output slots of the node at `p`, by index.
    pub closed spec fn outputs(&self, p: Seq<u128>) -> Seq<OutputSlotState> {
        if self.output_slots@.dom().contains(p) {
            self.output_slots@[p]@
        } else {
            Seq::empty()
        }
    }

    /// Edges by id.
    pub closed spec fn edge_map(&self) -> Map<u128, Edge> {
        self.edges@
    }

    /// Ordered edges connected to the input slot `sid`.
    pub closed spec fn input_edges(&self, sid: u128) -> Seq<u128> {
        list_at(self.input_connections@, sid)
    }

    /// Ordered edges connected from the output slot `sid`.
    pub closed spec fn output_edges(&self, sid: u128) -> Seq<u128> {
        list_at(self.output_connections@, sid)
    }

    /// Edges leaving the node at `p`.
    pub closed spec fn outgoing(&self, p: Seq<u128>) -> Seq<u128> {
        list_at(self.outgoing_edges@, p)
    }

    /// Edges entering the node at `p`.
    pub closed spec fn incoming(&self, p: Seq<u128>) -> Seq<u128> {
        list_at(self.incoming_edges@, p)
    }

    /// Paths changed since the last drain.
    pub closed spec fn changed(&self) -> Set<Seq<u128>> {
        self.changed_nodes@.dom()
    }

    /// Direct children recorded under `p`.
    pub closed spec fn children(&self, p: Seq<u128>) -> Seq<u128> {
        self.path_index.children(p)
    }

    /// The structural generation counter.
    pub closed spec fn generation(&self) -> u64 {
        self.generation
    }

    /// The edge indexes are those of `other`.
    pub open spec fn same_edge_indexes(&self, other: &Self) -> bool {
        &&& forall|s: u128| #[trigger] self.input_edges(s) == other.input_edges(s)
        &&& forall|s: u128| #[trigger] self.output_edges(s) == other.output_edges(s)
        &&& forall|p: Seq<u128>| #[trigger] self.outgoing(p) == other.outgoing(p)
        &&& forall|p: Seq<u128>| #[trigger] self.incoming(p) == other.incoming(p)
    }

    /// The slot tables are those of `other`.
    pub open spec fn same_slots(&self, other: &Self) -> bool {
        &&& forall|p: Seq<u128>| #[trigger] self.inputs(p) == other.inputs(p)
        &&& forall|p: Seq<u128>| #[trigger] self.outputs(p) == other.outputs(p)
    }

    /// The children index is that of `other`.
    pub open spec fn same_children(&self, other: &Self) -> bool {
        forall|p: Seq<u128>| #[trigger] self.children(p) == other.children(p)
    }

    /// The generation after one structural change.
    pub open spec fn bumped(g: u64) -> u64 {
        if g < u64::MAX { (g + 1) as u64 } else { g }
    }

    fn bump(&mut self)
        ensures
            final(self).generation == Self::bumped(old(self).generation),
            final(self).nodes == old(self).nodes,
            final(self).input_slots == old(self).input_slots,
            final(self).output_slots == old(self).output_slots,
            final(self).edges == old(self).edges,
            final(self).input_connections == old(self).input_connections,
            final(self).output_connections == old(self).output_connections,
            final(self).outgoing_edges == old(self).outgoing_edges,
            final(self).incoming_edges == old(self).incoming_edges,
            final(self).changed_nodes == old(self).changed_nodes,
            final(self).path_index == old(self).path_index,
    {
        if self.generation < u64::MAX {
            self.generation = self.generation + 1;
        }
    }

    /// No nodes, no edges.
    pub fn new() -> (r: Self)
        ensures
            r.wf(),
            r.node_map() == Map::<Seq<u128>, NodeState<D>>::empty(),
            r.edge_map() == Map::<u128, Edge>::empty(),
            r.changed() == Set::<Seq<u128>>::empty(),
            forall|p: Seq<u128>| #[trigger] r.inputs(p) == Seq::<InputSlotState<V>>::empty(),
            forall|p: Seq<u128>| #[trigger] r.outputs(p) == Seq::<OutputSlotState>::empty(),
            forall|s: u128| #[trigger] r.input_edges(s) == Seq::<u128>::empty(),
            forall|s: u128| #[trigger] r.output_edges(s) == Seq::<u128>::empty(),
            forall|p: Seq<u128>| #[trigger] r.outgoing(p) == Seq::<u128>::empty(),
            forall|p: Seq<u128>| #[trigger] r.incoming(p) == Seq::<u128>::empty(),
            forall|p: Seq<u128>| #[trigger] r.children(p) == Seq::<u128>::empty(),
            r.generation() == 0,
    {
        NodeStates {
            nodes: AssocMap::new(),
            input_slots: AssocMap::new(),
            output_slots: AssocMap::new(),
            edges: AssocMap::new(),
            input_connections: AssocMap::new(),
            output_connections: AssocMap::new(),
            outgoing_edges: AssocMap::new(),
            incoming_edges: AssocMap::new(),
            changed_nodes: AssocMap::new(),
            path_index: PathIndex::new(),
            generation: 0,
        }
    }

    /// The structural generation: moves on every change of which nodes,
    /// slots and edges exist, never on data writes.
    pub fn structure_generation(&self) -> (r: u64)
        ensures
            r == self.generation(),
    {
        self.generation
    }

    /// Number of input slots of the node at `path`.
    pub fn input_slot_count(&self, path: &NodePath) -> (r: usize)
        requires
            self.wf(),
        ensures
            r == self.inputs(path@).len(),
    {
        match self.input_slots.get(path) {
            Some(v) => v.len(),
            None => 0,
        }
    }

    /// Number of output slots of the node at `path`.
    pub fn output_slot_count(&self, path: &NodePath) -> (r: usize)
        requires
            self.wf(),
        ensures
            r == self.outputs(path@).len(),
    {
        match self.output_slots.get(path) {
            Some(v) => v.len(),
            None => 0,
        }
    }

    /// The node record at `path`.
    pub fn get(&self, path: &NodePath) -> (r: Option<&NodeState<D>>)
        requires
            self.wf(),
        ensures
            match r {
                Some(s) => self.node_map().dom().contains(path@) && *s == self.node_map()[path@],
                None => !self.node_map().dom().contains(path@),
            },
    {
        self.nodes.get(path)
    }

    /// Input slot `slot_index` of the node at `path`.
    pub fn input_slot(&self, path: &NodePath, slot_index: usize) -> (r: Option<&InputSlotState<V>>)
        requires
            self.wf(),
        ensures
            match r {
                Some(s) => slot_index < self.inputs(path@).len() && *s == self.inputs(
                    path@,
                )[slot_index as int],
                None => slot_index >= self.inputs(path@).len(),
            },
    {
        match self.input_slots.get(path) {
            Some(v) => {
                if slot_index < v.len() {
                    Some(&v[slot_index])
                } else {
                    None
                }
            },
            None => None,
        }
    }

    /// Output slot `slot_index` of the node at `path`.
    pub fn output_slot(&self, path: &NodePath, slot_index: usize) -> (r: Option<&OutputSlotState>)
        requires
            self.wf(),
        ensures
            match r {
                Some(s) => slot_index < self.outputs(path@).len() && *s == self.outputs(
                    path@,
                )[slot_index as int],
                None => slot_index >= self.outputs(path@).len(),
            },
    {
        match self.output_slots.get(path) {
            Some(v) => {
                if slot_index < v.len() {
                    Some(&v[slot_index])
                } else {
                    None
                }
            },
            None => None,
        }
    }

    /// The edge with id `edge_id`.
    pub fn get_edge(&self, edge_id: &EdgeId) -> (r: Option<&Edge>)
        requires
            self.wf(),
        ensures
            match r {
                Some(e) => self.edge_map().dom().contains(edge_id@) && *e == self.edge_map()[edge_id@],
                None => !self.edge_map().dom().contains(edge_id@),
            },
    {
        self.edges.get(edge_id)
    }

    /// All edges.
    pub fn edges(&self) -> (r: &AssocMap<EdgeId, Edge>)
        requires
            self.wf(),
        ensures
            r.wf(),
            r@ == self.edge_map(),
    {
        &self.edges
    }

    /// Ordered edges connected to input slot `input_slot_id`.
    pub fn edges_for_input(&self, input_slot_id: &InputSlotId) -> (r: Vec<EdgeId>)
        requires
            self.wf(),
        ensures
            key_seq(r@) == self.input_edges(input_slot_id@),
    {
        match self.input_connections.get(input_slot_id) {
            Some(v) => vec_copy_keys(v),
            None => Vec::new(),
        }
    }

    /// Ordered edges connected from output slot `output_slot_id`.
    pub fn edges_for_output(&self, output_slot_id: &OutputSlotId) -> (r: Vec<EdgeId>)
        requires
            self.wf(),
        ensures
            key_seq(r@) == self.output_edges(output_slot_id@),
    {
        match self.output_connections.get(output_slot_id) {
            Some(v) => vec_copy_keys(v),
            None => Vec::new(),
        }
    }

    /// Edges entering the node at `path`.
    pub fn incoming_edges_at(&self, path: &NodePath) -> (r: Vec<EdgeId>)
        requires
            self.wf(),
        ensures
            key_seq(r@) == self.incoming(path@),
    {
        match self.incoming_edges.get(path) {
            Some(v) => vec_copy_keys(v),
            None => Vec::new(),
        }
    }

    /// Edges leaving the node at `path`.
    pub fn outgoing_edges_at(&self, path: &NodePath) -> (r: Vec<EdgeId>)
        requires
            self.wf(),
        ensures
            key_seq(r@) == self.outgoing(path@),
    {
        match self.outgoing_edges.get(path) {
            Some(v) => vec_copy_keys(v),
            None => Vec::new(),
        }
    }

    /// The input slot built from `def`, with no default value.
    pub open spec fn input_matches_def(s: InputSlotState<V>, def: SlotDef) -> bool {
        &&& s.label == def.label
        &&& s.data_type == def.data_type
        &&& s.max_connections == def.max_connections
        &&& s.inspector_visible == def.inspector_visible
        &&& s.default_value is None
    }

    /// The output slot built from `def`.
    pub open spec fn output_matches_def(s: OutputSlotState, def: SlotDef) -> bool {
        &&& s.label == def.label
        &&& s.data_type == def.data_type
    }

    /// Slot table of `path` after `add_node`: one slot per definition, then
    /// whatever stood beyond them before.
    pub open spec fn inputs_after_add(
        new: Seq<InputSlotState<V>>,
        prev: Seq<InputSlotState<V>>,
        defs: Seq<SlotDef>,
    ) -> bool {
        &&& new.len() == if prev.len() > defs.len() { prev.len() } else { defs.len() }
        &&& forall|i: int| 0 <= i < defs.len() ==> Self::input_matches_def(#[trigger] new[i], defs[i])
        &&& forall|i: int| defs.len() <= i < new.len() ==> #[trigger] new[i] == prev[i]
    }

    /// Output slot table of `path` after `add_node`, in the same way.
    pub open spec fn outputs_after_add(
        new: Seq<OutputSlotState>,
        prev: Seq<OutputSlotState>,
        defs: Seq<SlotDef>,
    ) -> bool {
        &&& new.len() == if prev.len() > defs.len() { prev.len() } else { defs.len() }
        &&& forall|i: int| 0 <= i < defs.len() ==> Self::output_matches_def(#[trigger] new[i], defs[i])
        &&& forall|i: int| defs.len() <= i < new.len() ==> #[trigger] new[i] == prev[i]
    }

    /// `self` is `old` with the node `st` placed at `path`: slots built
    /// from the definitions (any further old slots kept), the path marked
    /// changed and recorded under its parent, the generation moved.
    pub open spec fn node_added(
        &self,
        prev: &Self,
        path: Seq<u128>,
        st: NodeState<D>,
        input_defs: Seq<SlotDef>,
        output_defs: Seq<SlotDef>,
    ) -> bool {
        &&& self.node_map() == prev.node_map().insert(path, st)
        &&& Self::inputs_after_add(self.inputs(path), prev.inputs(path), input_defs)
        &&& Self::outputs_after_add(self.outputs(path), prev.outputs(path), output_defs)
        &&& forall|p: Seq<u128>| p != path ==> #[trigger] self.inputs(p) == prev.inputs(p)
        &&& forall|p: Seq<u128>| p != path ==> #[trigger] self.outputs(p) == prev.outputs(p)
        &&& self.edge_map() == prev.edge_map()
        &&& self.same_edge_indexes(prev)
        &&& self.changed() == prev.changed().insert(path)
        &&& forall|p: Seq<u128>| #[trigger] self.children(p) == if path.len() > 0 && p == path.drop_last()
            && !prev.children(p).contains(path.last()) {
            prev.children(p).push(path.last())
        } else {
            prev.children(p)
        }
        &&& self.generation() == Self::bumped(prev.generation())
    }

    fn input_slots_from_defs(defs: &[SlotDef]) -> (r: Vec<InputSlotState<V>>)
        ensures
            r@.len() == defs@.len(),
            forall|i: int| 0 <= i < defs@.len() ==> Self::input_matches_def(#[trigger] r@[i], defs@[i]),
    {
        let mut r: Vec<InputSlotState<V>> = Vec::new();
        let mut i: usize = 0;
        while i < defs.len()
            invariant
                i <= defs@.len(),
                r@.len() == i,
                forall|j: int| 0 <= j < i ==> Self::input_matches_def(#[trigger] r@[j], defs@[j]),
            decreases defs@.len() - i,
        {
            let def = defs[i];
            r.push(
                InputSlotState {
                    id: InputSlotId::new(),
                    label: def.label,
                    data_type: def.data_type,
                    max_connections: def.max_connections,
                    inspector_visible: def.inspector_visible,
                    default_value: None,
                },
            );
            i = i + 1;
        }
        r
    }

    fn output_slots_from_defs(defs: &[SlotDef]) -> (r: Vec<OutputSlotState>)
        ensures
            r@.len() == defs@.len(),
            forall|i: int| 0 <= i < defs@.len() ==> Self::output_matches_def(#[trigger] r@[i], defs@[i]),
    {
        let mut r: Vec<OutputSlotState> = Vec::new();
        let mut i: usize = 0;
        while i < defs.len()
            invariant
                i <= defs@.len(),
                r@.len() == i,
                forall|j: int| 0 <= j < i ==> Self::output_matches_def(#[trigger] r@[j], defs@[j]),
            decreases defs@.len() - i,
        {
            let def = defs[i];
            r.push(OutputSlotState { id: OutputSlotId::new(), label: def.label, data_type: def.data_type });
            i = i + 1;
        }
        r
    }

    /// Adds (or replaces) the node at `path` with slots built from the
    /// definitions, marks it changed and records it under its parent.
    pub fn add_node(
        &mut self,
        path: &NodePath,
        type_label: &'static str,
        type_id: Option<std::any::TypeId>,
        default_data: Option<NodeData<D>>,
        input_defs: &[SlotDef],
        output_defs: &[SlotDef],
    )
        requires
            old(self).wf(),
        ensures
            final(self).wf(),
            final(self).node_added(
                &*old(self),
                path@,
                NodeState { type_label, rust_type_id: type_id, data: default_data },
                input_defs@,
                output_defs@,
            ),
    {
        self.path_index.insert(path);
        self.nodes.insert(
            path.clone(),
            NodeState { type_label, rust_type_id: type_id, data: default_data },
        );
        let ghost old_in = old(self).inputs(path@);
        let mut ins = Self::input_slots_from_defs(input_defs);
        let mut old_ins = match self.input_slots.remove(path) {
            Some(v) => v,
            None => Vec::new(),
        };
        assert(old_ins@ == old_in);
        if old_ins.len() > ins.len() {
            let mut tail = old_ins.split_off(ins.len());
            ins.append(&mut tail);
        }
        self.input_slots.insert(path.clone(), ins);
        let ghost old_out = old(self).outputs(path@);
        let mut outs = Self::output_slots_from_defs(output_defs);
        let mut old_outs = match self.output_slots.remove(path) {
            Some(v) => v,
            None => Vec::new(),
        };
        assert(old_outs@ == old_out);
        if old_outs.len() > outs.len() {
            let mut tail = old_outs.split_off(outs.len());
            outs.append(&mut tail);
        }
        self.output_slots.insert(path.clone(), outs);
        self.changed_nodes.insert(path.clone(), ());
        self.bump();
    }

    /// Every edge into `p` has a target index that can still grow.
    pub open spec fn target_indexes_below_max(m: Map<u128, Edge>, p: Seq<u128>) -> bool {
        forall|k: u128|
            #[trigger] m.dom().contains(k) && m[k].to_node@ == p ==> m[k].to_input_slot_index
                < usize::MAX
    }

    /// Every edge out of `p` has a source index that can still grow.
    pub open spec fn source_indexes_below_max(m: Map<u128, Edge>, p: Seq<u128>) -> bool {
        forall|k: u128|
            #[trigger] m.dom().contains(k) && m[k].from_node@ == p ==> m[k].from_output_slot_index
                < usize::MAX
    }

    /// `e` after one of the four index shifts.
    pub open spec fn shifted(e: Edge, kind: ShiftKind, p: Seq<u128>, at: int) -> Edge {
        match kind {
            ShiftKind::TargetUp => shift_target_up(e, p, at),
            ShiftKind::SourceUp => shift_source_up(e, p, at),
            ShiftKind::TargetDown => shift_target_down(e, p, at),
            ShiftKind::SourceDown => shift_source_down(e, p, at),
        }
    }

    /// Applies one index shift to every edge.
    fn shift_edges(&mut self, kind: ShiftKind, path: &NodePath, at: usize)
        requires
            old(self).wf(),
            kind == ShiftKind::TargetUp ==> Self::target_indexes_below_max(old(self).edge_map(), path@),
            kind == ShiftKind::SourceUp ==> Self::source_indexes_below_max(old(self).edge_map(), path@),
        ensures
            final(self).wf(),
            final(self).edge_map().dom() == old(self).edge_map().dom(),
            forall|k: u128|
                #[trigger] final(self).edge_map().dom().contains(k) ==> final(self).edge_map()[k]
                    == Self::shifted(old(self).edge_map()[k], kind, path@, at as int),
            final(self).nodes == old(self).nodes,
            final(self).input_slots == old(self).input_slots,
            final(self).output_slots == old(self).output_slots,
            final(self).input_connections == old(self).input_connections,
            final(self).output_connections == old(self).output_connections,
            final(self).outgoing_edges == old(self).outgoing_edges,
            final(self).incoming_edges == old(self).incoming_edges,
            final(self).changed_nodes == old(self).changed_nodes,
            final(self).path_index == old(self).path_index,
            final(self).generation == old(self).generation,
    {
        let keys = self.edges.keys();
        proof {
            self.edges.lemma_entries();
            assert forall|k: u128| #[trigger] self.edges@.dom().contains(k) implies exists|i: int|
                0 <= i < keys@.len() && #[trigger] keys@[i]@ == k by {
                let i = choose|i: int| 0 <= i < self.edges.spec_len() && #[trigger] self.edges.key_at(i) == k;
                assert(keys@[i]@ == k);
            }
        }
        let ghost old_map = self.edges@;
        let mut j: usize = 0;
        while j < keys.len()
            invariant
                self.wf(),
                j <= keys@.len(),
                keys@.len() == old(self).edges.spec_len(),
                forall|i: int| 0 <= i < keys@.len() ==> (#[trigger] keys@[i])@ == old(self).edges.key_at(i),
                forall|a: int, b: int|
                    0 <= a < keys@.len() && 0 <= b < keys@.len() && a != b
                        ==> #[trigger] keys@[a]@ != #[trigger] keys@[b]@,
                forall|k: u128| #[trigger] old_map.dom().contains(k) ==> exists|i: int|
                    0 <= i < keys@.len() && #[trigger] keys@[i]@ == k,
                old_map == old(self).edges@,
                old(self).edges.wf(),
                kind == ShiftKind::TargetUp ==> Self::target_indexes_below_max(old_map, path@),
                kind == ShiftKind::SourceUp ==> Self::source_indexes_below_max(old_map, path@),
                self.edges@.dom() == old_map.dom(),
                forall|k: u128|
                    #[trigger] self.edges@.dom().contains(k) ==> self.edges@[k] == if (exists|i: int|
                        0 <= i < j && #[trigger] keys@[i]@ == k) {
                        Self::shifted(old_map[k], kind, path@, at as int)
                    } else {
                        old_map[k]
                    },
                self.nodes == old(self).nodes,
                self.input_slots == old(self).input_slots,
                self.output_slots == old(self).output_slots,
                self.input_connections == old(self).input_connections,
                self.output_connections == old(self).output_connections,
                self.outgoing_edges == old(self).outgoing_edges,
                self.incoming_edges == old(self).incoming_edges,
                self.changed_nodes == old(self).changed_nodes,
                self.path_index == old(self).path_index,
                self.generation == old(self).generation,
            decreases keys@.len() - j,
        {
            let k = keys[j].copy_key();
            let ghost kv = k@;
            proof {
                old(self).edges.lemma_entries();
                assert(old(self).edges.key_at(j as int) == kv);
            }
            let ghost before = self.edges@;
            assert(!(exists|i: int| 0 <= i < j && #[trigger] keys@[i]@ == kv));
            match self.edges.remove(&k) {
                Some(mut e) => {
                    match kind {
                        ShiftKind::TargetUp => {
                            if e.to_node.same_path(path) && e.to_input_slot_index >= at {
                                e.to_input_slot_index = e.to_input_slot_index + 1;
                            }
                        },
                        ShiftKind::SourceUp => {
                            if e.from_node.same_path(path) && e.from_output_slot_index >= at {
                                e.from_output_slot_index = e.from_output_slot_index + 1;
                            }
                        },
                        ShiftKind::TargetDown => {
                            if e.to_node.same_path(path) && e.to_input_slot_index > at {
                                e.to_input_slot_index = e.to_input_slot_index - 1;
                            }
                        },
                        ShiftKind::SourceDown => {
                            if e.from_node.same_path(path) && e.from_output_slot_index > at {
                                e.from_output_slot_index = e.from_output_slot_index - 1;
                            }
                        },
                    }
                    assert(e == Self::shifted(before[kv], kind, path@, at as int));
                    self.edges.insert(k, e);
                },
                None => {},
            }
            proof {
                assert forall|kk: u128| #[trigger] self.edges@.dom().contains(kk) implies self.edges@[kk]
                    == if (exists|i: int| 0 <= i < j + 1 && #[trigger] keys@[i]@ == kk) {
                    Self::shifted(old_map[kk], kind, path@, at as int)
                } else {
                    old_map[kk]
                } by {
                    if kk == kv {
                        assert(keys@[j as int]@ == kk);
                    } else {
                        if exists|i: int| 0 <= i < j + 1 && #[trigger] keys@[i]@ == kk {
                            let i = choose|i: int| 0 <= i < j + 1 && #[trigger] keys@[i]@ == kk;
                            assert(i != j);
                        }
                    }
                }
                assert(self.edges@.dom() =~= old_map.dom());
            }
            j = j + 1;
        }
        proof {
            assert forall|k: u128| #[trigger] self.edges@.dom().contains(k) implies (exists|i: int|
                0 <= i < j && #[trigger] keys@[i]@ == k) by {}
        }
    }

    /// Every part of the state other than the input slot tables is that of
    /// `other`.
    pub open spec fn same_except_inputs(&self, other: &Self) -> bool {
        &&& self.node_map() == other.node_map()
        &&& forall|p: Seq<u128>| #[trigger] self.outputs(p) == other.outputs(p)
        &&& self.edge_map() == other.edge_map()
        &&& self.same_edge_indexes(other)
        &&& self.changed() == other.changed()
        &&& self.same_children(other)
    }

    /// Every part of the state other than the output slot tables is that of
    /// `other`.
    pub open spec fn same_except_outputs(&self, other: &Self) -> bool {
        &&& self.node_map() == other.node_map()
        &&& forall|p: Seq<u128>| #[trigger] self.inputs(p) == other.inputs(p)
        &&& self.edge_map() == other.edge_map()
        &&& self.same_edge_indexes(other)
        &&& self.changed() == other.changed()
        &&& self.same_children(other)
    }

    /// A new input slot with the given fields and no default value.
    pub open spec fn input_slot_is(
        s: InputSlotState<V>,
        label: &'static str,
        data_type: DataType,
        max_connections: Option<usize>,
        inspector_visible: bool,
    ) -> bool {
        &&& s.label == label
        &&& s.data_type == data_type
        &&& s.max_connections == max_connections
        &&& s.inspector_visible == inspector_visible
        &&& s.default_value is None
    }

    fn take_inputs(&mut self, path: &NodePath) -> (r: Vec<InputSlotState<V>>)
        requires
            old(self).wf(),
        ensures
            final(self).wf(),
            r@ == old(self).inputs(path@),
            final(self).input_slots@ == old(self).input_slots@.remove(path@),
            final(self).nodes == old(self).nodes,
            final(self).output_slots == old(self).output_slots,
            final(self).edges == old(self).edges,
            final(self).input_connections == old(self).input_connections,
            final(self).output_connections == old(self).output_connections,
            final(self).outgoing_edges == old(self).outgoing_edges,
            final(self).incoming_edges == old(self).incoming_edges,
            final(self).changed_nodes == old(self).changed_nodes,
            final(self).path_index == old(self).path_index,
            final(self).generation == old(self).generation,
    {
        match self.input_slots.remove(path) {
            Some(v) => v,
            None => Vec::new(),
        }
    }

    fn take_outputs(&mut self, path: &NodePath) -> (r: Vec<OutputSlotState>)
        requires
            old(self).wf(),
        ensures
            final(self).wf(),
            r@ == old(self).outputs(path@),
            final(self).output_slots@ == old(self).output_slots@.remove(path@),
            final(self).nodes == old(self).nodes,
            final(self).input_slots == old(self).input_slots,
            final(self).edges == old(self).edges,
            final(self).input_connections == old(self).input_connections,
            final(self).output_connections == old(self).output_connections,
            final(self).outgoing_edges == old(self).outgoing_edges,
            final(self).incoming_edges == old(self).incoming_edges,
            final(self).changed_nodes == old(self).changed_nodes,
            final(self).path_index == old(self).path_index,
            final(self).generation == old(self).generation,
    {
        match self.output_slots.remove(path) {
            Some(v) => v,
            None => Vec::new(),
        }
    }

    /// Appends an input slot to the node at `path`; returns its index.
    pub fn add_input_slot(
        &mut self,
        path: &NodePath,
        label: &'static str,
        data_type: DataType,
        max_connections: Option<usize>,
        inspector_visible: bool,
    ) -> (r: usize)
        requires
            old(self).wf(),
        ensures
            final(self).wf(),
            r == old(self).inputs(path@).len(),
            final(self).inputs(path@).len() == r + 1,
            final(self).inputs(path@).subrange(0, r as int) == old(self).inputs(path@),
            Self::input_slot_is(
                final(self).inputs(path@)[r as int],
                label,
                data_type,
                max_connections,
                inspector_visible,
            ),
            forall|p: Seq<u128>| p != path@ ==> #[trigger] final(self).inputs(p) == old(self).inputs(p),
            final(self).same_except_inputs(&*old(self)),
            final(self).generation() == Self::bumped(old(self).generation()),
    {
        let mut list = self.take_inputs(path);
        let index = list.len();
        list.push(
            InputSlotState {
                id: InputSlotId::new(),
                label,
                data_type,
                max_connections,
                inspector_visible,
                default_value: None,
            },
        );
        self.input_slots.insert(path.clone(), list);
        self.bump();
        assert(self.inputs(path@).subrange(0, index as int) =~= old(self).inputs(path@));
        index
    }

    /// Appends an output slot to the node at `path`; returns its index.
    pub fn add_output_slot(&mut self, path: &NodePath, label: &'static str, data_type: DataType) -> (r:
        usize)
        requires
            old(self).wf(),
        ensures
            final(self).wf(),
            r == old(self).outputs(path@).len(),
            final(self).outputs(path@).len() == r + 1,
            final(self).outputs(path@).subrange(0, r as int) == old(self).outputs(path@),
            final(self).outputs(path@)[r as int].label == label,
            final(self).outputs(path@)[r as int].data_type == data_type,
            forall|p: Seq<u128>| p != path@ ==> #[trigger] final(self).outputs(p) == old(self).outputs(p),
            final(self).same_except_outputs(&*old(self)),
            final(self).generation() == Self::bumped(old(self).generation()),
    {
        let mut list = self.take_outputs(path);
        let index = list.len();
        list.push(OutputSlotState { id: OutputSlotId::new(), label, data_type });
        self.output_slots.insert(path.clone(), list);
        self.bump();
        assert(self.outputs(path@).subrange(0, index as int) =~= old(self).outputs(path@));
        index
    }

    /// Inserts an input slot at `index` (clamped to the slot count),
    /// moving the slots at and above it up by one; edges into those slots
    /// keep pointing at the same slot. Returns the index used.
    pub fn insert_input_slot_at(
        &mut self,
        path: &NodePath,
        index: usize,
        label: &'static str,
        data_type: DataType,
        max_connections: Option<usize>,
        inspector_visible: bool,
    ) -> (r: usize)
        requires
            old(self).wf(),
            Self::target_indexes_below_max(old(self).edge_map(), path@),
        ensures
            final(self).wf(),
            r == if index < old(self).inputs(path@).len() { index as int } else { old(self).inputs(
                path@,
            ).len() as int },
            final(self).inputs(path@).len() == old(self).inputs(path@).len() + 1,
            forall|i: int| 0 <= i < r ==> #[trigger] final(self).inputs(path@)[i] == old(self).inputs(path@)[i],
            Self::input_slot_is(
                final(self).inputs(path@)[r as int],
                label,
                data_type,
                max_connections,
                inspector_visible,
            ),
            forall|i: int|
                r < i < final(self).inputs(path@).len() ==> #[trigger] final(self).inputs(path@)[i]
                    == old(self).inputs(path@)[i - 1],
            forall|p: Seq<u128>| p != path@ ==> #[trigger] final(self).inputs(p) == old(self).inputs(p),
            forall|p: Seq<u128>| #[trigger] final(self).outputs(p) == old(self).outputs(p),
            final(self).node_map() == old(self).node_map(),
            final(self).edge_map().dom() == old(self).edge_map().dom(),
            forall|k: u128|
                #[trigger] final(self).edge_map().dom().contains(k) ==> final(self).edge_map()[k]
                    == shift_target_up(old(self).edge_map()[k], path@, r as int),
            final(self).same_edge_indexes(&*old(self)),
            final(self).changed() == old(self).changed(),
            final(self).same_children(&*old(self)),
            final(self).generation() == Self::bumped(old(self).generation()),
    {
        let mut list = self.take_inputs(path);
        let at = if index < list.len() { index } else { list.len() };
        list.insert(
            at,
            InputSlotState {
                id: InputSlotId::new(),
                label,
                data_type,
                max_connections,
                inspector_visible,
                default_value: None,
            },
        );
        self.input_slots.insert(path.clone(), list);
        self.shift_edges(ShiftKind::TargetUp, path, at);
        self.bump();
        at
    }

    /// Inserts an output slot at `index` (clamped to the slot count),
    /// moving the slots at and above it up by one; edges from those slots
    /// keep leaving the same slot. Returns the index used.
    pub fn insert_output_slot_at(
        &mut self,
        path: &NodePath,
        index: usize,
        label: &'static str,
        data_type: DataType,
    ) -> (r: usize)
        requires
            old(self).wf(),
            Self::source_indexes_below_max(old(self).edge_map(), path@),
        ensures
            final(self).wf(),
            r == if index < old(self).outputs(path@).len() { index as int } else { old(self).outputs(
                path@,
            ).len() as int },
            final(self).outputs(path@).len() == old(self).outputs(path@).len() + 1,
            forall|i: int| 0 <= i < r ==> #[trigger] final(self).outputs(path@)[i] == old(self).outputs(path@)[i],
            final(self).outputs(path@)[r as int].label == label,
            final(self).outputs(path@)[r as int].data_type == data_type,
            forall|i: int|
                r < i < final(self).outputs(path@).len() ==> #[trigger] final(self).outputs(path@)[i]
                    == old(self).outputs(path@)[i - 1],
            forall|p: Seq<u128>| p != path@ ==> #[trigger] final(self).outputs(p) == old(self).outputs(p),
            forall|p: Seq<u128>| #[trigger] final(self).inputs(p) == old(self).inputs(p),
            final(self).node_map() == old(self).node_map(),
            final(self).edge_map().dom() == old(self).edge_map().dom(),
            forall|k: u128|
                #[trigger] final(self).edge_map().dom().contains(k) ==> final(self).edge_map()[k]
                    == shift_source_up(old(self).edge_map()[k], path@, r as int),
            final(self).same_edge_indexes(&*old(self)),
            final(self).changed() == old(self).changed(),
            final(self).same_children(&*old(self)),
            final(self).generation() == Self::bumped(old(self).generation()),
    {
        let mut list = self.take_outputs(path);
        let at = if index < list.len() { index } else { list.len() };
        list.insert(at, OutputSlotState { id: OutputSlotId::new(), label, data_type });
        self.output_slots.insert(path.clone(), list);
        self.shift_edges(ShiftKind::SourceUp, path, at);
        self.bump();
        at
    }

    /// Removes input slot `index` of the node at `path`, moving higher
    /// slots down by one; edges into those slots keep pointing at the same
    /// slot. An index past the end changes nothing.
    pub fn remove_input_slot(&mut self, path: &NodePath, index: usize)
        requires
            old(self).wf(),
        ensures
            final(self).wf(),
            index >= old(self).inputs(path@).len() ==> *final(self) == *old(self),
            index < old(self).inputs(path@).len() ==> {
                &&& final(self).inputs(path@) == old(self).inputs(path@).remove(index as int)
                &&& forall|p: Seq<u128>| p != path@ ==> #[trigger] final(self).inputs(p) == old(self).inputs(p)
                &&& forall|p: Seq<u128>| #[trigger] final(self).outputs(p) == old(self).outputs(p)
                &&& final(self).node_map() == old(self).node_map()
                &&& final(self).edge_map().dom() == old(self).edge_map().dom()
                &&& forall|k: u128|
                    #[trigger] final(self).edge_map().dom().contains(k) ==> final(self).edge_map()[k]
                        == shift_target_down(old(self).edge_map()[k], path@, index as int)
                &&& final(self).same_edge_indexes(&*old(self))
                &&& final(self).changed() == old(self).changed()
                &&& final(self).same_children(&*old(self))
                &&& final(self).generation() == Self::bumped(old(self).generation())
            },
    {
        let count = self.input_slot_count(path);
        if index >= count {
            return;
        }
        let mut list = self.take_inputs(path);
        list.remove(index);
        self.input_slots.insert(path.clone(), list);
        self.shift_edges(ShiftKind::TargetDown, path, index);
        self.bump();
    }

    /// Removes output slot `index` of the node at `path`, moving higher
    /// slots down by one; edges from those slots keep leaving the same
    /// slot. An index past the end changes nothing.
    pub fn remove_output_slot(&mut self, path: &NodePath, index: usize)
        requires
            old(self).wf(),
        ensures
            final(self).wf(),
            index >= old(self).outputs(path@).len() ==> *final(self) == *old(self),
            index < old(self).outputs(path@).len() ==> {
                &&& final(self).outputs(path@) == old(self).outputs(path@).remove(index as int)
                &&& forall|p: Seq<u128>| p != path@ ==> #[trigger] final(self).outputs(p) == old(self).outputs(p)
                &&& forall|p: Seq<u128>| #[trigger] final(self).inputs(p) == old(self).inputs(p)
                &&& final(self).node_map() == old(self).node_map()
                &&& final(self).edge_map().dom() == old(self).edge_map().dom()
                &&& forall|k: u128|
                    #[trigger] final(self).edge_map().dom().contains(k) ==> final(self).edge_map()[k]
                        == shift_source_down(old(self).edge_map()[k], path@, index as int)
                &&& final(self).same_edge_indexes(&*old(self))
                &&& final(self).changed() == old(self).changed()
                &&& final(self).same_children(&*old(self))
                &&& final(self).generation() == Self::bumped(old(self).generation())
            },
    {
        let count = self.output_slot_count(path);
        if index >= count {
            return;
        }
        let mut list = self.take_outputs(path);
        list.remove(index);
        self.output_slots.insert(path.clone(), list);
        self.shift_edges(ShiftKind::SourceDown, path, index);
        self.bump();
    }

    /// Sets the `inspector_visible` flag of input slot `index`; `false`
    /// when there is no such slot.
    pub fn set_input_slot_inspector_visible(&mut self, path: &NodePath, index: usize, visible: bool) -> (r:
        bool)
        requires
            old(self).wf(),
        ensures
            final(self).wf(),
            r == (index < old(self).inputs(path@).len()),
            r ==> final(self).inputs(path@) == old(self).inputs(path@).update(
                index as int,
                InputSlotState { inspector_visible: visible, ..old(self).inputs(path@)[index as int] },
            ),
            !r ==> *final(self) == *old(self),
            forall|p: Seq<u128>| p != path@ ==> #[trigger] final(self).inputs(p) == old(self).inputs(p),
            final(self).same_except_inputs(&*old(self)),
            final(self).generation() == old(self).generation(),
    {
        if index >= self.input_slot_count(path) {
            return false;
        }
        let mut list = self.take_inputs(path);
        let mut slot = list.remove(index);
        slot.inspector_visible = visible;
        list.insert(index, slot);
        self.input_slots.insert(path.clone(), list);
        assert(self.inputs(path@) =~= old(self).inputs(path@).update(
            index as int,
            InputSlotState { inspector_visible: visible, ..old(self).inputs(path@)[index as int] },
        ));
        true
    }

    /// Relabels input slot `index`, keeping its id so edges stay valid;
    /// `false` when there is no such slot.
    pub fn set_input_slot_label(&mut self, path: &NodePath, index: usize, label: &'static str) -> (r:
        bool)
        requires
            old(self).wf(),
        ensures
            final(self).wf(),
            r == (index < old(self).inputs(path@).len()),
            r ==> final(self).inputs(path@) == old(self).inputs(path@).update(
                index as int,
                InputSlotState { label, ..old(self).inputs(path@)[index as int] },
            ),
            r ==> final(self).generation() == Self::bumped(old(self).generation()),
            !r ==> *final(self) == *old(self),
            forall|p: Seq<u128>| p != path@ ==> #[trigger] final(self).inputs(p) == old(self).inputs(p),
            final(self).same_except_inputs(&*old(self)),
    {
        if index >= self.input_slot_count(path) {
            return false;
        }
        let mut list = self.take_inputs(path);
        let mut slot = list.remove(index);
        slot.label = label;
        list.insert(index, slot);
        self.input_slots.insert(path.clone(), list);
        self.bump();
        assert(self.inputs(path@) =~= old(self).inputs(path@).update(
            index as int,
            InputSlotState { label, ..old(self).inputs(path@)[index as int] },
        ));
        true
    }

    /// Relabels output slot `index`, keeping its id so edges stay valid;
    /// `false` when there is no such slot.
    pub fn set_output_slot_label(&mut self, path: &NodePath, index: usize, label: &'static str) -> (r:
        bool)
        requires
            old(self).wf(),
        ensures
            final(self).wf(),
            r == (index < old(self).outputs(path@).len()),
            r ==> final(self).outputs(path@) == old(self).outputs(path@).update(
                index as int,
                OutputSlotState { label, ..old(self).outputs(path@)[index as int] },
            ),
            r ==> final(self).generation() == Self::bumped(old(self).generation()),
            !r ==> *final(self) == *old(self),
            forall|p: Seq<u128>| p != path@ ==> #[trigger] final(self).outputs(p) == old(self).outputs(p),
            final(self).same_except_outputs(&*old(self)),
    {
        if index >= self.output_slot_count(path) {
            return false;
        }
        let mut list = self.take_outputs(path);
        let mut slot = list.remove(index);
        slot.label = label;
        list.insert(index, slot);
        self.output_slots.insert(path.clone(), list);
        self.bump();
        assert(self.outputs(path@) =~= old(self).outputs(path@).update(
            index as int,
            OutputSlotState { label, ..old(self).outputs(path@)[index as int] },
        ));
        true
    }

    /// Sets the default value of input slot `index`; `false` when there is
    /// no such slot.
    pub fn set_input_slot_default(&mut self, path: &NodePath, index: usize, value: Option<V>) -> (r:
        bool)
        requires
            old(self).wf(),
        ensures
            final(self).wf(),
            r == (index < old(self).inputs(path@).len()),
            r ==> final(self).inputs(path@) == old(self).inputs(path@).update(
                index as int,
                InputSlotState { default_value: value, ..old(self).inputs(path@)[index as int] },
            ),
            r ==> final(self).generation() == Self::bumped(old(self).generation()),
            !r ==> *final(self) == *old(self),
            forall|p: Seq<u128>| p != path@ ==> #[trigger] final(self).inputs(p) == old(self).inputs(p),
            final(self).same_except_inputs(&*old(self)),
    {
        if index >= self.input_slot_count(path) {
            return false;
        }
        let mut list = self.take_inputs(path);
        let mut slot = list.remove(index);
        let ghost v = value;
        slot.default_value = value;
        list.insert(index, slot);
        self.input_slots.insert(path.clone(), list);
        self.bump();
        assert(self.inputs(path@) =~= old(self).inputs(path@).update(
            index as int,
            InputSlotState { default_value: v, ..old(self).inputs(path@)[index as int] },
        ));
        true
    }

    /// Replaces the data of the node at `path`; `false` when there is no
    /// such node.
    pub fn set_node_data(&mut self, path: &NodePath, data: Option<NodeData<D>>) -> (r: bool)
        requires
            old(self).wf(),
        ensures
            final(self).wf(),
            r == old(self).node_map().dom().contains(path@),
            r ==> final(self).node_map() == old(self).node_map().insert(
                path@,
                NodeState { data, ..old(self).node_map()[path@] },
            ),
            !r ==> *final(self) == *old(self),
            final(self).same_slots(&*old(self)),
            final(self).edge_map() == old(self).edge_map(),
            final(self).same_edge_indexes(&*old(self)),
            final(self).changed() == old(self).changed(),
            final(self).same_children(&*old(self)),
            final(self).generation() == old(self).generation(),
    {
        match self.nodes.find(path) {
            None => false,
            Some(i) => {
                let st = self.nodes.value(i);
                let ghost d = data;
                let ns = NodeState { type_label: st.type_label, rust_type_id: st.rust_type_id, data };
                self.nodes.set_value(i, ns);
                assert(ns == NodeState { data: d, ..old(self).node_map()[path@] });
                true
            },
        }
    }

    /// `self` is `old` with `edge` stored under `id`: appended to the
    /// lists of its two slots and two nodes, its target marked changed,
    /// the generation moved.
    pub open spec fn edge_added(&self, prev: &Self, id: u128, edge: Edge) -> bool {
        &&& self.edge_map() == prev.edge_map().insert(id, edge)
        &&& forall|s: u128| #[trigger] self.input_edges(s) == if s == edge.to_input_slot_id@ {
            prev.input_edges(s).push(id)
        } else {
            prev.input_edges(s)
        }
        &&& forall|s: u128| #[trigger] self.output_edges(s) == if s == edge.from_output_slot_id@ {
            prev.output_edges(s).push(id)
        } else {
            prev.output_edges(s)
        }
        &&& forall|p: Seq<u128>| #[trigger] self.outgoing(p) == if p == edge.from_node@ {
            prev.outgoing(p).push(id)
        } else {
            prev.outgoing(p)
        }
        &&& forall|p: Seq<u128>| #[trigger] self.incoming(p) == if p == edge.to_node@ {
            prev.incoming(p).push(id)
        } else {
            prev.incoming(p)
        }
        &&& self.changed() == prev.changed().insert(edge.to_node@)
        &&& self.node_map() == prev.node_map()
        &&& self.same_slots(prev)
        &&& self.same_children(prev)
        &&& self.generation() == Self::bumped(prev.generation())
    }

    /// Stores `edge` under `edge_id`, indexes it under both slots and
    /// both nodes, and marks its target node changed.
    pub fn add_edge(&mut self, edge_id: EdgeId, edge: Edge)
        requires
            old(self).wf(),
            !old(self).edge_map().dom().contains(edge_id@),
        ensures
            final(self).wf(),
            final(self).edge_added(&*old(self), edge_id@, edge),
    {
        self.changed_nodes.insert(edge.to_node.clone(), ());
        push_edge_to(&mut self.input_connections, &edge.to_input_slot_id, edge_id);
        push_edge_to(&mut self.output_connections, &edge.from_output_slot_id, edge_id);
        push_edge_to(&mut self.outgoing_edges, &edge.from_node, edge_id);
        push_edge_to(&mut self.incoming_edges, &edge.to_node, edge_id);
        self.edges.insert(edge_id, edge);
        self.bump();
        proof {
            Self::lemma_lists_after_add(&*old(self), &*self, edge_id@, edge);
        }
    }

    /// `remove_edge` without moving the generation.
    fn remove_edge_quiet(&mut self, edge_id: &EdgeId) -> (r: Option<Edge>)
        requires
            old(self).wf(),
        ensures
            final(self).wf(),
            match r {
                None => !old(self).edge_map().dom().contains(edge_id@) && *final(self) == *old(self),
                Some(e) => {
                    &&& old(self).edge_map().dom().contains(edge_id@)
                    &&& e == old(self).edge_map()[edge_id@]
                    &&& final(self).edge_map() == old(self).edge_map().remove(edge_id@)
                    &&& forall|s: u128| #[trigger] final(self).input_edges(s) == if s == e.to_input_slot_id@ {
                        without(old(self).input_edges(s), edge_id@)
                    } else {
                        old(self).input_edges(s)
                    }
                    &&& forall|s: u128| #[trigger] final(self).output_edges(s) == if s == e.from_output_slot_id@ {
                        without(old(self).output_edges(s), edge_id@)
                    } else {
                        old(self).output_edges(s)
                    }
                    &&& forall|p: Seq<u128>| #[trigger] final(self).outgoing(p) == if p == e.from_node@ {
                        without(old(self).outgoing(p), edge_id@)
                    } else {
                        old(self).outgoing(p)
                    }
                    &&& forall|p: Seq<u128>| #[trigger] final(self).incoming(p) == if p == e.to_node@ {
                        without(old(self).incoming(p), edge_id@)
                    } else {
                        old(self).incoming(p)
                    }
                    &&& final(self).changed() == old(self).changed().insert(e.to_node@)
                    &&& final(self).node_map() == old(self).node_map()
                    &&& final(self).same_slots(&*old(self))
                    &&& final(self).same_children(&*old(self))
                    &&& final(self).generation() == old(self).generation()
                },
            },
    {
        if !self.edges.contains_key(edge_id) {
            return None;
        }
        match self.edges.remove(edge_id) {
            None => None,
            Some(edge) => {
                self.changed_nodes.insert(edge.to_node.clone(), ());
                drop_edge_from(&mut self.input_connections, &edge.to_input_slot_id, edge_id);
                drop_edge_from(&mut self.output_connections, &edge.from_output_slot_id, edge_id);
                drop_edge_from(&mut self.outgoing_edges, &edge.from_node, edge_id);
                drop_edge_from(&mut self.incoming_edges, &edge.to_node, edge_id);
                proof {
                    Self::lemma_lists_after_remove(&*old(self), &*self, edge_id@);
                }
                Some(edge)
            },
        }
    }

    /// Edge `y` of `prev` is gone from `self`.
    pub open spec fn edge_gone(&self, prev: &Self, y: u128) -> bool {
        prev.edge_map().dom().contains(y) && !self.edge_map().dom().contains(y)
    }

    /// Whether an entry `y` of the list kept under input slot `s` in `prev`
    /// stays in `self`.
    pub open spec fn kept_at_input(&self, prev: &Self, s: u128) -> spec_fn(u128) -> bool {
        |y: u128| !(self.edge_gone(prev, y) && prev.edge_map()[y].to_input_slot_id@ == s)
    }

    /// The same for the list kept under output slot `s`.
    pub open spec fn kept_at_output(&self, prev: &Self, s: u128) -> spec_fn(u128) -> bool {
        |y: u128| !(self.edge_gone(prev, y) && prev.edge_map()[y].from_output_slot_id@ == s)
    }

    /// The same for the list of edges leaving the node at `p`.
    pub open spec fn kept_leaving(&self, prev: &Self, p: Seq<u128>) -> spec_fn(u128) -> bool {
        |y: u128| !(self.edge_gone(prev, y) && prev.edge_map()[y].from_node@ == p)
    }

    /// The same for the list of edges entering the node at `p`.
    pub open spec fn kept_entering(&self, prev: &Self, p: Seq<u128>) -> spec_fn(u128) -> bool {
        |y: u128| !(self.edge_gone(prev, y) && prev.edge_map()[y].to_node@ == p)
    }

    /// The edge lists of `self` are those of `prev` less the edges of
    /// `prev` that `self` no longer has, each dropped from the lists kept
    /// under its own slots and nodes; every other entry keeps its place.
    pub open spec fn lists_pruned(&self, prev: &Self) -> bool {
        &&& forall|s: u128| #[trigger] self.input_edges(s) == prev.input_edges(s).filter(self.kept_at_input(prev, s))
        &&& forall|s: u128| #[trigger] self.output_edges(s) == prev.output_edges(s).filter(self.kept_at_output(prev, s))
        &&& forall|p: Seq<u128>| #[trigger] self.outgoing(p) == prev.outgoing(p).filter(self.kept_leaving(prev, p))
        &&& forall|p: Seq<u128>| #[trigger] self.incoming(p) == prev.incoming(p).filter(self.kept_entering(prev, p))
    }

    /// Every edge of `self` is an edge of `prev`, between the same slots
    /// of the same nodes.
    pub open spec fn edges_kept_from(&self, prev: &Self) -> bool {
        forall|x: u128| #[trigger] self.edge_map().dom().contains(x) ==> prev.edge_map().dom().contains(x)
            && same_ends(self.edge_map()[x], prev.edge_map()[x])
    }

    /// With the same edges and the same lists, nothing was pruned.
    pub proof fn lemma_pruned_when_unchanged(prev: &Self, next: &Self)
        requires
            next.edge_map().dom() == prev.edge_map().dom(),
            forall|x: u128| #[trigger] next.edge_map().dom().contains(x) ==> same_ends(next.edge_map()[x], prev.edge_map()[x]),
            next.same_edge_indexes(prev),
        ensures
            next.lists_pruned(prev),
            next.edges_kept_from(prev),
    {
        assert forall|s: u128| #[trigger] next.input_edges(s) == prev.input_edges(s).filter(next.kept_at_input(prev, s)) by {
            lemma_filter_all(prev.input_edges(s), next.kept_at_input(prev, s));
        }
        assert forall|s: u128| #[trigger] next.output_edges(s) == prev.output_edges(s).filter(next.kept_at_output(prev, s)) by {
            lemma_filter_all(prev.output_edges(s), next.kept_at_output(prev, s));
        }
        assert forall|p: Seq<u128>| #[trigger] next.outgoing(p) == prev.outgoing(p).filter(next.kept_leaving(prev, p)) by {
            lemma_filter_all(prev.outgoing(p), next.kept_leaving(prev, p));
        }
        assert forall|p: Seq<u128>| #[trigger] next.incoming(p) == prev.incoming(p).filter(next.kept_entering(prev, p)) by {
            lemma_filter_all(prev.incoming(p), next.kept_entering(prev, p));
        }
    }

    /// Pruning composes: `c` pruned from `b` pruned from `a` is `c` pruned
    /// from `a`.
    pub proof fn lemma_pruned_trans(a: &Self, b: &Self, c: &Self)
        requires
            b.lists_pruned(a),
            b.edges_kept_from(a),
            c.lists_pruned(b),
            c.edges_kept_from(b),
        ensures
            c.lists_pruned(a),
            c.edges_kept_from(a),
    {
        assert forall|s: u128| #[trigger] c.input_edges(s) == a.input_edges(s).filter(c.kept_at_input(a, s)) by {
            assert forall|y: u128| #[trigger] c.kept_at_input(a, s)(y) == (b.kept_at_input(a, s)(y) && c.kept_at_input(b, s)(y)) by {
                if b.edge_map().dom().contains(y) {
                    assert(a.edge_map().dom().contains(y));
                }
            }
            lemma_prune_compose(a.input_edges(s), b.input_edges(s), c.input_edges(s), b.kept_at_input(a, s), c.kept_at_input(b, s), c.kept_at_input(a, s));
        }
        assert forall|s: u128| #[trigger] c.output_edges(s) == a.output_edges(s).filter(c.kept_at_output(a, s)) by {
            assert forall|y: u128| #[trigger] c.kept_at_output(a, s)(y) == (b.kept_at_output(a, s)(y) && c.kept_at_output(b, s)(y)) by {
                if b.edge_map().dom().contains(y) {
                    assert(a.edge_map().dom().contains(y));
                }
            }
            lemma_prune_compose(a.output_edges(s), b.output_edges(s), c.output_edges(s), b.kept_at_output(a, s), c.kept_at_output(b, s), c.kept_at_output(a, s));
        }
        assert forall|p: Seq<u128>| #[trigger] c.outgoing(p) == a.outgoing(p).filter(c.kept_leaving(a, p)) by {
            assert forall|y: u128| #[trigger] c.kept_leaving(a, p)(y) == (b.kept_leaving(a, p)(y) && c.kept_leaving(b, p)(y)) by {
                if b.edge_map().dom().contains(y) {
                    assert(a.edge_map().dom().contains(y));
                }
            }
            lemma_prune_compose(a.outgoing(p), b.outgoing(p), c.outgoing(p), b.kept_leaving(a, p), c.kept_leaving(b, p), c.kept_leaving(a, p));
        }
        assert forall|p: Seq<u128>| #[trigger] c.incoming(p) == a.incoming(p).filter(c.kept_entering(a, p)) by {
            assert forall|y: u128| #[trigger] c.kept_entering(a, p)(y) == (b.kept_entering(a, p)(y) && c.kept_entering(b, p)(y)) by {
                if b.edge_map().dom().contains(y) {
                    assert(a.edge_map().dom().contains(y));
                }
            }
            lemma_prune_compose(a.incoming(p), b.incoming(p), c.incoming(p), b.kept_entering(a, p), c.kept_entering(b, p), c.kept_entering(a, p));
        }
    }

    /// Nothing is pruned from a state relative to itself.
    pub proof fn lemma_pruned_refl(&self)
        ensures
            self.lists_pruned(self),
            self.edges_kept_from(self),
    {
        assert forall|s: u128| #[trigger] self.input_edges(s) == self.input_edges(s).filter(self.kept_at_input(self, s)) by {
            lemma_filter_all(self.input_edges(s), self.kept_at_input(self, s));
        }
        assert forall|s: u128| #[trigger] self.output_edges(s) == self.output_edges(s).filter(self.kept_at_output(self, s)) by {
            lemma_filter_all(self.output_edges(s), self.kept_at_output(self, s));
        }
        assert forall|p: Seq<u128>| #[trigger] self.outgoing(p) == self.outgoing(p).filter(self.kept_leaving(self, p)) by {
            lemma_filter_all(self.outgoing(p), self.kept_leaving(self, p));
        }
        assert forall|p: Seq<u128>| #[trigger] self.incoming(p) == self.incoming(p).filter(self.kept_entering(self, p)) by {
            lemma_filter_all(self.incoming(p), self.kept_entering(self, p));
        }
    }

    /// Removing one more edge `k` of `cur` keeps `next` pruned relative to
    /// `prev`.
    pub proof fn lemma_prune_step(prev: &Self, cur: &Self, next: &Self, k: u128)
        requires
            cur.lists_pruned(prev),
            cur.edges_kept_from(prev),
            cur.edge_map().dom().contains(k),
            next.edge_removed(cur, k),
        ensures
            next.lists_pruned(prev),
            next.edges_kept_from(prev),
    {
        let e = cur.edge_map()[k];
        assert(same_ends(prev.edge_map()[k], e));
        assert forall|y: u128| y != k implies next.edge_gone(prev, y) == cur.edge_gone(prev, y) by {
            assert(next.edge_map().dom().contains(y) == cur.edge_map().dom().contains(y));
        }
        assert(next.edge_gone(prev, k) && !cur.edge_gone(prev, k));
        assert forall|s: u128| #[trigger] next.input_edges(s) == prev.input_edges(s).filter(next.kept_at_input(prev, s)) by {
            let hit = s == e.to_input_slot_id@;
            assert forall|y: u128| #[trigger] next.kept_at_input(prev, s)(y) == (cur.kept_at_input(prev, s)(y) && !(hit && y == k)) by {}
            lemma_prune_list(prev.input_edges(s), cur.input_edges(s), next.input_edges(s), cur.kept_at_input(prev, s), next.kept_at_input(prev, s), k, hit);
        }
        assert forall|s: u128| #[trigger] next.output_edges(s) == prev.output_edges(s).filter(next.kept_at_output(prev, s)) by {
            let hit = s == e.from_output_slot_id@;
            assert forall|y: u128| #[trigger] next.kept_at_output(prev, s)(y) == (cur.kept_at_output(prev, s)(y) && !(hit && y == k)) by {}
            lemma_prune_list(prev.output_edges(s), cur.output_edges(s), next.output_edges(s), cur.kept_at_output(prev, s), next.kept_at_output(prev, s), k, hit);
        }
        assert forall|p: Seq<u128>| #[trigger] next.outgoing(p) == prev.outgoing(p).filter(next.kept_leaving(prev, p)) by {
            let hit = p == e.from_node@;
            assert forall|y: u128| #[trigger] next.kept_leaving(prev, p)(y) == (cur.kept_leaving(prev, p)(y) && !(hit && y == k)) by {}
            lemma_prune_list(prev.outgoing(p), cur.outgoing(p), next.outgoing(p), cur.kept_leaving(prev, p), next.kept_leaving(prev, p), k, hit);
        }
        assert forall|p: Seq<u128>| #[trigger] next.incoming(p) == prev.incoming(p).filter(next.kept_entering(prev, p)) by {
            let hit = p == e.to_node@;
            assert forall|y: u128| #[trigger] next.kept_entering(prev, p)(y) == (cur.kept_entering(prev, p)(y) && !(hit && y == k)) by {}
            lemma_prune_list(prev.incoming(p), cur.incoming(p), next.incoming(p), cur.kept_entering(prev, p), next.kept_entering(prev, p), k, hit);
        }
    }

    /// `self` is `old` without its edge `id`: dropped from the lists of
    /// its two slots and two nodes, its target marked changed, the
    /// generation moved.
    pub open spec fn edge_removed(&self, prev: &Self, id: u128) -> bool {
        let e = prev.edge_map()[id];
        &&& self.edge_map() == prev.edge_map().remove(id)
        &&& forall|s: u128| #[trigger] self.input_edges(s) == if s == e.to_input_slot_id@ {
            without(prev.input_edges(s), id)
        } else {
            prev.input_edges(s)
        }
        &&& forall|s: u128| #[trigger] self.output_edges(s) == if s == e.from_output_slot_id@ {
            without(prev.output_edges(s), id)
        } else {
            prev.output_edges(s)
        }
        &&& forall|p: Seq<u128>| #[trigger] self.outgoing(p) == if p == e.from_node@ {
            without(prev.outgoing(p), id)
        } else {
            prev.outgoing(p)
        }
        &&& forall|p: Seq<u128>| #[trigger] self.incoming(p) == if p == e.to_node@ {
            without(prev.incoming(p), id)
        } else {
            prev.incoming(p)
        }
        &&& self.changed() == prev.changed().insert(e.to_node@)
        &&& self.node_map() == prev.node_map()
        &&& self.same_slots(prev)
        &&& self.same_children(prev)
        &&& self.generation() == Self::bumped(prev.generation())
    }

    /// Removes the edge `edge_id` and drops it from the lists of its two
    /// slots and two nodes; its target node is marked changed. `None` when
    /// there is no such edge.
    pub fn remove_edge(&mut self, edge_id: &EdgeId) -> (r: Option<Edge>)
        requires
            old(self).wf(),
        ensures
            final(self).wf(),
            match r {
                None => !old(self).edge_map().dom().contains(edge_id@) && *final(self) == *old(self),
                Some(e) => {
                    &&& old(self).edge_map().dom().contains(edge_id@)
                    &&& e == old(self).edge_map()[edge_id@]
                    &&& final(self).edge_removed(&*old(self), edge_id@)
                },
            },
    {
        if !self.edges.contains_key(edge_id) {
            return None;
        }
        match self.edges.remove(edge_id) {
            None => None,
            Some(edge) => {
                self.changed_nodes.insert(edge.to_node.clone(), ());
                drop_edge_from(&mut self.input_connections, &edge.to_input_slot_id, edge_id);
                drop_edge_from(&mut self.output_connections, &edge.from_output_slot_id, edge_id);
                drop_edge_from(&mut self.outgoing_edges, &edge.from_node, edge_id);
                drop_edge_from(&mut self.incoming_edges, &edge.to_node, edge_id);
                proof {
                    Self::lemma_lists_after_remove(&*old(self), &*self, edge_id@);
                }
                self.bump();
                Some(edge)
            },
        }
    }

    /// Ids of the edges that leave or enter the node at `path`.
    fn edges_touching(&self, path: &NodePath) -> (r: Vec<EdgeId>)
        requires
            self.wf(),
        ensures
            forall|x: u128| key_seq(r@).contains(x) <==> gone_edge(self.edge_map(), path@, x),
            key_seq(r@).no_duplicates(),
    {
        let mut r: Vec<EdgeId> = Vec::new();
        let mut i: usize = 0;
        proof {
            self.edges.lemma_entries();
            assert forall|a: int| 0 <= a < self.edges.spec_len() implies #[trigger] self.edge_map().dom().contains(
                self.edges.key_at(a),
            ) && self.edge_map()[self.edges.key_at(a)] == self.edges.value_at(a) by {
                assert(self.edges@.dom().contains(self.edges.key_at(a)));
            }
        }
        while i < self.edges.len()
            invariant
                self.wf(),
                i <= self.edges.spec_len(),
                forall|x: u128| key_seq(r@).contains(x) <==> exists|j: int|
                    0 <= j < i && #[trigger] self.edges.key_at(j) == x && gone_edge(
                        self.edge_map(),
                        path@,
                        x,
                    ),
                key_seq(r@).no_duplicates(),
                forall|a: int, b: int|
                    0 <= a < self.edges.spec_len() && 0 <= b < self.edges.spec_len() && a != b
                        ==> #[trigger] self.edges.key_at(a) != #[trigger] self.edges.key_at(b),
                forall|a: int|
                    0 <= a < self.edges.spec_len() ==> #[trigger] self.edge_map().dom().contains(
                        self.edges.key_at(a),
                    ) && self.edge_map()[self.edges.key_at(a)] == self.edges.value_at(a),
            decreases self.edges.spec_len() - i,
        {
            let e = self.edges.value(i);
            if e.from_node.same_path(path) || e.to_node.same_path(path) {
                let ghost before = r@;
                let k = self.edges.key(i).copy_key();
                r.push(k);
                proof {
                    assert(self.edge_map().dom().contains(self.edges.key_at(i as int)));
                    assert(gone_edge(self.edge_map(), path@, k@));
                    assert(key_seq(r@) =~= key_seq(before).push(k@));
                    assert forall|x: u128| key_seq(r@).contains(x) <==> exists|j: int|
                        0 <= j < i + 1 && #[trigger] self.edges.key_at(j) == x && gone_edge(
                            self.edge_map(),
                            path@,
                            x,
                        ) by {
                        assert(key_seq(r@).contains(x) == (key_seq(before).contains(x) || x == k@));
                        if x == k@ {
                            assert(self.edges.key_at(i as int) == x);
                        }
                    }
                    assert forall|a: int, b: int|
                        0 <= a < key_seq(r@).len() && 0 <= b < key_seq(r@).len() && a != b
                            implies key_seq(r@)[a] != key_seq(r@)[b] by {
                        if a == key_seq(before).len() as int || b == key_seq(before).len() as int {
                            let other = if a == key_seq(before).len() as int { b } else { a };
                            assert(key_seq(before).contains(key_seq(before)[other]));
                        }
                    }
                }
            } else {
                proof {
                    assert forall|x: u128| key_seq(r@).contains(x) <==> exists|j: int|
                        0 <= j < i + 1 && #[trigger] self.edges.key_at(j) == x && gone_edge(
                            self.edge_map(),
                            path@,
                            x,
                        ) by {
                        if exists|j: int|
                            0 <= j < i + 1 && #[trigger] self.edges.key_at(j) == x && gone_edge(
                                self.edge_map(),
                                path@,
                                x,
                            ) {
                            let j = choose|j: int|
                                0 <= j < i + 1 && #[trigger] self.edges.key_at(j) == x && gone_edge(
                                    self.edge_map(),
                                    path@,
                                    x,
                                );
                            if j == i {
                                assert(!gone_edge(self.edge_map(), path@, x));
                            }
                        }
                    }
                }
            }
            i = i + 1;
        }
        r
    }

    /// Removes every edge that leaves or enters the node at `path`, with
    /// its index entries; the targets of the removed edges are marked
    /// changed.
    pub fn remove_edges_for_node_at(&mut self, path: &NodePath)
        requires
            old(self).wf(),
        ensures
            final(self).wf(),
            final(self).edge_map() == old(self).edge_map().remove_keys(
                Set::new(|x: u128| gone_edge(old(self).edge_map(), path@, x)),
            ),
            forall|s: u128| #[trigger] final(self).input_edges(s) == seq_drop_set(old(self).input_edges(s),
                Set::new(|x: u128| gone_edge(old(self).edge_map(), path@, x) && old(self).edge_map()[x].to_input_slot_id@ == s),
            ),
            forall|s: u128| #[trigger] final(self).output_edges(s) == seq_drop_set(old(self).output_edges(s),
                Set::new(|x: u128| gone_edge(old(self).edge_map(), path@, x) && old(self).edge_map()[x].from_output_slot_id@ == s),
            ),
            forall|q: Seq<u128>| #[trigger] final(self).outgoing(q) == seq_drop_set(old(self).outgoing(q),
                Set::new(|x: u128| gone_edge(old(self).edge_map(), path@, x) && old(self).edge_map()[x].from_node@ == q),
            ),
            forall|q: Seq<u128>| #[trigger] final(self).incoming(q) == seq_drop_set(old(self).incoming(q),
                Set::new(|x: u128| gone_edge(old(self).edge_map(), path@, x) && old(self).edge_map()[x].to_node@ == q),
            ),
            final(self).changed() == old(self).changed() + Set::new(
                |q: Seq<u128>| exists|x: u128| gone_edge(old(self).edge_map(), path@, x) && #[trigger] old(self).edge_map()[x].to_node@ == q,
            ),
            final(self).node_map() == old(self).node_map(),
            final(self).same_slots(&*old(self)),
            final(self).same_children(&*old(self)),
            final(self).generation() == Self::bumped(old(self).generation()),
    {
        let ids = self.edges_touching(path);
        let ghost om = old(self).edge_map();
        let ghost p = path@;
        let ghost mut done: Set<u128> = Set::empty();
        let mut j: usize = 0;
        proof {
            assert(om.remove_keys(done) =~= om);
            assert(key_seq(ids@).subrange(0, 0).to_set() =~= done);
            assert(old(self).changed() + Set::new(
                |q: Seq<u128>| exists|x: u128| done.contains(x) && #[trigger] om[x].to_node@ == q,
            ) =~= old(self).changed());
            assert forall|s: u128| #[trigger] self.input_edges(s) == seq_drop_set(old(self).input_edges(s),
                Set::new(|x: u128| done.contains(x) && om[x].to_input_slot_id@ == s)) by {
                lemma_drop_set_disjoint(self.input_edges(s), Set::new(|x: u128| done.contains(x) && om[x].to_input_slot_id@ == s));
            }
            assert forall|s: u128| #[trigger] self.output_edges(s) == seq_drop_set(old(self).output_edges(s),
                Set::new(|x: u128| done.contains(x) && om[x].from_output_slot_id@ == s)) by {
                lemma_drop_set_disjoint(self.output_edges(s), Set::new(|x: u128| done.contains(x) && om[x].from_output_slot_id@ == s));
            }
            assert forall|q: Seq<u128>| #[trigger] self.outgoing(q) == seq_drop_set(old(self).outgoing(q),
                Set::new(|x: u128| done.contains(x) && om[x].from_node@ == q)) by {
                lemma_drop_set_disjoint(self.outgoing(q), Set::new(|x: u128| done.contains(x) && om[x].from_node@ == q));
            }
            assert forall|q: Seq<u128>| #[trigger] self.incoming(q) == seq_drop_set(old(self).incoming(q),
                Set::new(|x: u128| done.contains(x) && om[x].to_node@ == q)) by {
                lemma_drop_set_disjoint(self.incoming(q), Set::new(|x: u128| done.contains(x) && om[x].to_node@ == q));
            }
        }
        while j < ids.len()
            invariant
                self.wf(),
                j <= ids@.len(),
                om == old(self).edge_map(),
                p == path@,
                forall|x: u128| key_seq(ids@).contains(x) <==> gone_edge(om, p, x),
                key_seq(ids@).no_duplicates(),
                done == key_seq(ids@).subrange(0, j as int).to_set(),
                self.edge_map() == om.remove_keys(done),
                forall|s: u128| #[trigger] self.input_edges(s) == seq_drop_set(old(self).input_edges(s),
                    Set::new(|x: u128| done.contains(x) && om[x].to_input_slot_id@ == s)),
                forall|s: u128| #[trigger] self.output_edges(s) == seq_drop_set(old(self).output_edges(s),
                    Set::new(|x: u128| done.contains(x) && om[x].from_output_slot_id@ == s)),
                forall|q: Seq<u128>| #[trigger] self.outgoing(q) == seq_drop_set(old(self).outgoing(q),
                    Set::new(|x: u128| done.contains(x) && om[x].from_node@ == q)),
                forall|q: Seq<u128>| #[trigger] self.incoming(q) == seq_drop_set(old(self).incoming(q),
                    Set::new(|x: u128| done.contains(x) && om[x].to_node@ == q)),
                self.changed() == old(self).changed() + Set::new(
                    |q: Seq<u128>| exists|x: u128| done.contains(x) && #[trigger] om[x].to_node@ == q,
                ),
                self.node_map() == old(self).node_map(),
                self.same_slots(&*old(self)),
                self.same_children(&*old(self)),
                self.generation() == old(self).generation(),
            decreases ids@.len() - j,
        {
            let x = ids[j];
            proof {
                assert(key_seq(ids@)[j as int] == x@);
                assert(!done.contains(x@)) by {
                    if done.contains(x@) {
                        let i = choose|i: int| 0 <= i < j && key_seq(ids@).subrange(0, j as int)[i] == x@;
                        assert(key_seq(ids@)[i] == x@);
                    }
                }
                assert(key_seq(ids@).contains(x@));
                assert(gone_edge(om, p, x@));
                assert(om.remove_keys(done).dom().contains(x@));
                assert(self.edge_map()[x@] == om[x@]);
            }
            let r = self.remove_edge_quiet(&x);
            proof {
                let e = om[x@];
                assert(r == Some(e));
                let nd = done.insert(x@);
                assert(key_seq(ids@).subrange(0, j + 1) =~= key_seq(ids@).subrange(0, j as int).push(x@));
                key_seq(ids@).subrange(0, j as int).lemma_push_to_set_commute(x@);
                assert(self.edge_map() =~= om.remove_keys(nd));
                assert forall|s: u128| #[trigger] self.input_edges(s) == seq_drop_set(old(self).input_edges(s),
                    Set::new(|y: u128| nd.contains(y) && om[y].to_input_slot_id@ == s)) by {
                    let dd = Set::new(|y: u128| done.contains(y) && om[y].to_input_slot_id@ == s);
                    let dn = Set::new(|y: u128| nd.contains(y) && om[y].to_input_slot_id@ == s);
                    if s == e.to_input_slot_id@ {
                        lemma_drop_set_then_without(old(self).input_edges(s), dd, x@);
                        assert(dd.insert(x@) =~= dn);
                    } else {
                        assert(dd =~= dn);
                    }
                }
                assert forall|s: u128| #[trigger] self.output_edges(s) == seq_drop_set(old(self).output_edges(s),
                    Set::new(|y: u128| nd.contains(y) && om[y].from_output_slot_id@ == s)) by {
                    let dd = Set::new(|y: u128| done.contains(y) && om[y].from_output_slot_id@ == s);
                    let dn = Set::new(|y: u128| nd.contains(y) && om[y].from_output_slot_id@ == s);
                    if s == e.from_output_slot_id@ {
                        lemma_drop_set_then_without(old(self).output_edges(s), dd, x@);
                        assert(dd.insert(x@) =~= dn);
                    } else {
                        assert(dd =~= dn);
                    }
                }
                assert forall|q: Seq<u128>| #[trigger] self.outgoing(q) == seq_drop_set(old(self).outgoing(q),
                    Set::new(|y: u128| nd.contains(y) && om[y].from_node@ == q)) by {
                    let dd = Set::new(|y: u128| done.contains(y) && om[y].from_node@ == q);
                    let dn = Set::new(|y: u128| nd.contains(y) && om[y].from_node@ == q);
                    if q == e.from_node@ {
                        lemma_drop_set_then_without(old(self).outgoing(q), dd, x@);
                        assert(dd.insert(x@) =~= dn);
                    } else {
                        assert(dd =~= dn);
                    }
                }
                assert forall|q: Seq<u128>| #[trigger] self.incoming(q) == seq_drop_set(old(self).incoming(q),
                    Set::new(|y: u128| nd.contains(y) && om[y].to_node@ == q)) by {
                    let dd = Set::new(|y: u128| done.contains(y) && om[y].to_node@ == q);
                    let dn = Set::new(|y: u128| nd.contains(y) && om[y].to_node@ == q);
                    if q == e.to_node@ {
                        lemma_drop_set_then_without(old(self).incoming(q), dd, x@);
                        assert(dd.insert(x@) =~= dn);
                    } else {
                        assert(dd =~= dn);
                    }
                }
                assert(self.changed() =~= old(self).changed() + Set::new(
                    |q: Seq<u128>| exists|y: u128| nd.contains(y) && #[trigger] om[y].to_node@ == q,
                )) by {
                    assert forall|q: Seq<u128>| self.changed().contains(q) <==> (old(self).changed() + Set::new(
                        |q: Seq<u128>| exists|y: u128| nd.contains(y) && #[trigger] om[y].to_node@ == q,
                    )).contains(q) by {
                        if q == e.to_node@ {
                            assert(nd.contains(x@) && om[x@].to_node@ == q);
                        }
                        if exists|y: u128| nd.contains(y) && #[trigger] om[y].to_node@ == q {
                            let y = choose|y: u128| nd.contains(y) && #[trigger] om[y].to_node@ == q;
                            if y != x@ {
                                assert(done.contains(y));
                            }
                        }
                    }
                }
                done = nd;
            }
            j = j + 1;
        }
        proof {
            assert(key_seq(ids@).subrange(0, j as int) =~= key_seq(ids@));
            assert(done =~= Set::new(|x: u128| gone_edge(old(self).edge_map(), path@, x)));
            assert forall|s: u128| #[trigger] self.input_edges(s) == seq_drop_set(old(self).input_edges(s),
                Set::new(|x: u128| gone_edge(old(self).edge_map(), path@, x) && old(self).edge_map()[x].to_input_slot_id@ == s)) by {
                assert(Set::new(|x: u128| done.contains(x) && om[x].to_input_slot_id@ == s) =~= Set::new(|x: u128| gone_edge(old(self).edge_map(), path@, x) && old(self).edge_map()[x].to_input_slot_id@ == s));
            }
            assert forall|s: u128| #[trigger] self.output_edges(s) == seq_drop_set(old(self).output_edges(s),
                Set::new(|x: u128| gone_edge(old(self).edge_map(), path@, x) && old(self).edge_map()[x].from_output_slot_id@ == s)) by {
                assert(Set::new(|x: u128| done.contains(x) && om[x].from_output_slot_id@ == s) =~= Set::new(|x: u128| gone_edge(old(self).edge_map(), path@, x) && old(self).edge_map()[x].from_output_slot_id@ == s));
            }
            assert forall|q: Seq<u128>| #[trigger] self.outgoing(q) == seq_drop_set(old(self).outgoing(q),
                Set::new(|x: u128| gone_edge(old(self).edge_map(), path@, x) && old(self).edge_map()[x].from_node@ == q)) by {
                assert(Set::new(|x: u128| done.contains(x) && om[x].from_node@ == q) =~= Set::new(|x: u128| gone_edge(old(self).edge_map(), path@, x) && old(self).edge_map()[x].from_node@ == q));
            }
            assert forall|q: Seq<u128>| #[trigger] self.incoming(q) == seq_drop_set(old(self).incoming(q),
                Set::new(|x: u128| gone_edge(old(self).edge_map(), path@, x) && old(self).edge_map()[x].to_node@ == q)) by {
                assert(Set::new(|x: u128| done.contains(x) && om[x].to_node@ == q) =~= Set::new(|x: u128| gone_edge(old(self).edge_map(), path@, x) && old(self).edge_map()[x].to_node@ == q));
            }
            assert(self.changed() =~= old(self).changed() + Set::new(
                |q: Seq<u128>| exists|x: u128| gone_edge(old(self).edge_map(), path@, x) && #[trigger] old(self).edge_map()[x].to_node@ == q,
            ));
        }
        let ghost pre = *self;
        self.bump();
        assert forall|s: u128| #[trigger] self.input_edges(s) == pre.input_edges(s) by {
            assert(self.input_connections == pre.input_connections);
        }
        assert forall|s: u128| #[trigger] self.output_edges(s) == pre.output_edges(s) by {
            assert(self.output_connections == pre.output_connections);
        }
        assert forall|q: Seq<u128>| #[trigger] self.outgoing(q) == pre.outgoing(q) by {
            assert(self.outgoing_edges == pre.outgoing_edges);
        }
        assert forall|q: Seq<u128>| #[trigger] self.incoming(q) == pre.incoming(q) by {
            assert(self.incoming_edges == pre.incoming_edges);
        }
        assert forall|q: Seq<u128>| #[trigger] self.inputs(q) == pre.inputs(q) by {
            assert(self.input_slots == pre.input_slots);
        }
        assert forall|q: Seq<u128>| #[trigger] self.outputs(q) == pre.outputs(q) by {
            assert(self.output_slots == pre.output_slots);
        }
        assert forall|q: Seq<u128>| #[trigger] self.children(q) == pre.children(q) by {
            assert(self.path_index == pre.path_index);
        }
    }

    /// Two states with the same slot tables, edge indexes and children
    /// index agree on every view of them.
    proof fn lemma_frame(a: &Self, b: &Self)
        requires
            a.input_slots == b.input_slots,
            a.output_slots == b.output_slots,
            a.input_connections == b.input_connections,
            a.output_connections == b.output_connections,
            a.outgoing_edges == b.outgoing_edges,
            a.incoming_edges == b.incoming_edges,
            a.path_index == b.path_index,
        ensures
            a.same_edge_indexes(b),
            a.same_slots(b),
            a.same_children(b),
    {
    }

    /// The edge table is finite.
    pub proof fn lemma_edge_map_finite(&self)
        requires
            self.wf(),
        ensures
            self.edge_map().dom().finite(),
    {
        self.edges.lemma_entries();
    }

    /// Marks the node at `path` as needing re-execution.
    pub fn mark_changed(&mut self, path: &NodePath)
        requires
            old(self).wf(),
        ensures
            final(self).wf(),
            final(self).changed() == old(self).changed().insert(path@),
            final(self).node_map() == old(self).node_map(),
            final(self).edge_map() == old(self).edge_map(),
            final(self).same_edge_indexes(&*old(self)),
            final(self).same_slots(&*old(self)),
            final(self).same_children(&*old(self)),
            final(self).generation() == old(self).generation(),
    {
        self.changed_nodes.insert(path.clone(), ());
    }

    /// The changed set, without clearing it; each path once.
    pub fn peek_changed_nodes(&self) -> (r: Vec<NodePath>)
        requires
            self.wf(),
        ensures
            key_seq(r@).to_set() == self.changed(),
            key_seq(r@).no_duplicates(),
    {
        let r = self.changed_nodes.keys();
        proof {
            self.changed_nodes.lemma_entries();
            assert(key_seq(r@).to_set() =~= self.changed()) by {
                assert forall|x: Seq<u128>| key_seq(r@).to_set().contains(x) implies self.changed().contains(x) by {
                    let i = choose|i: int| 0 <= i < key_seq(r@).len() && key_seq(r@)[i] == x;
                    assert(self.changed_nodes.key_at(i) == x);
                }
                assert forall|x: Seq<u128>| self.changed().contains(x) implies key_seq(r@).to_set().contains(x) by {
                    let i = choose|i: int| 0 <= i < self.changed_nodes.spec_len() && #[trigger] self.changed_nodes.key_at(i) == x;
                    assert(key_seq(r@)[i] == x);
                }
            }
            assert forall|i: int, j: int| 0 <= i < key_seq(r@).len() && 0 <= j < key_seq(r@).len() && i != j
                implies key_seq(r@)[i] != key_seq(r@)[j] by {
                assert(self.changed_nodes.key_at(i) != self.changed_nodes.key_at(j));
            }
        }
        r
    }

    /// Returns the changed set and clears it.
    pub fn drain_changed_nodes(&mut self) -> (r: Vec<NodePath>)
        requires
            old(self).wf(),
        ensures
            final(self).wf(),
            key_seq(r@).to_set() == old(self).changed(),
            key_seq(r@).no_duplicates(),
            final(self).changed() == Set::<Seq<u128>>::empty(),
            final(self).node_map() == old(self).node_map(),
            final(self).edge_map() == old(self).edge_map(),
            final(self).same_edge_indexes(&*old(self)),
            final(self).same_slots(&*old(self)),
            final(self).same_children(&*old(self)),
            final(self).generation() == old(self).generation(),
    {
        let r = self.peek_changed_nodes();
        self.changed_nodes = AssocMap::new();
        r
    }

    /// Marks every path of `paths` changed again.
    pub fn restore_changed_nodes(&mut self, paths: &Vec<NodePath>)
        requires
            old(self).wf(),
        ensures
            final(self).wf(),
            final(self).changed() == old(self).changed() + key_seq(paths@).to_set(),
            final(self).node_map() == old(self).node_map(),
            final(self).edge_map() == old(self).edge_map(),
            final(self).same_edge_indexes(&*old(self)),
            final(self).same_slots(&*old(self)),
            final(self).same_children(&*old(self)),
            final(self).generation() == old(self).generation(),
    {
        let mut i: usize = 0;
        while i < paths.len()
            invariant
                self.wf(),
                i <= paths@.len(),
                self.changed() == old(self).changed() + key_seq(paths@.subrange(0, i as int)).to_set(),
                self.node_map() == old(self).node_map(),
                self.edge_map() == old(self).edge_map(),
                self.same_edge_indexes(&*old(self)),
                self.same_slots(&*old(self)),
                self.same_children(&*old(self)),
                self.generation() == old(self).generation(),
            decreases paths@.len() - i,
        {
            let ghost pre = *self;
            self.changed_nodes.insert(paths[i].clone(), ());
            proof {
                Self::lemma_frame(&*self, &pre);
                let a = key_seq(paths@.subrange(0, i as int));
                assert(key_seq(paths@.subrange(0, i + 1)) =~= a.push(paths@[i as int]@));
                a.lemma_push_to_set_commute(paths@[i as int]@);
            }
            i = i + 1;
        }
        assert(paths@.subrange(0, paths@.len() as int) =~= paths@);
    }

    /// The local ids of every non-root node.
    pub fn node_ids(&self) -> (r: Vec<NodeId>)
        requires
            self.wf(),
        ensures
            forall|x: u128| key_seq(r@).contains(x) <==> exists|p: Seq<u128>|
                #[trigger] self.node_map().dom().contains(p) && p.len() > 0 && p.last() == x,
    {
        let mut r: Vec<NodeId> = Vec::new();
        let mut i: usize = 0;
        proof {
            self.nodes.lemma_entries();
        }
        while i < self.nodes.len()
            invariant
                self.wf(),
                i <= self.nodes.spec_len(),
                forall|x: u128| key_seq(r@).contains(x) <==> exists|j: int|
                    0 <= j < i && (#[trigger] self.nodes.key_at(j)).len() > 0 && self.nodes.key_at(j).last() == x,
            decreases self.nodes.spec_len() - i,
        {
            let ghost before = key_seq(r@);
            match self.nodes.key(i).leaf() {
                Some(id) => {
                    r.push(id);
                    assert(key_seq(r@) =~= before.push(id@));
                    assert forall|x: u128| key_seq(r@).contains(x) <==> exists|j: int|
                        0 <= j < i + 1 && (#[trigger] self.nodes.key_at(j)).len() > 0 && self.nodes.key_at(j).last() == x by {
                        if x == id@ {
                            assert(self.nodes.key_at(i as int).len() > 0);
                        }
                        if key_seq(r@).contains(x) && x != id@ {
                            assert(before.contains(x));
                        }
                    }
                },
                None => {},
            }
            i = i + 1;
        }
        proof {
            assert forall|x: u128| (exists|p: Seq<u128>|
                #[trigger] self.node_map().dom().contains(p) && p.len() > 0 && p.last() == x) implies key_seq(r@).contains(x) by {
                let p = choose|p: Seq<u128>| #[trigger] self.node_map().dom().contains(p) && p.len() > 0 && p.last() == x;
                let j = choose|j: int| 0 <= j < self.nodes.spec_len() && #[trigger] self.nodes.key_at(j) == p;
                assert(self.nodes.key_at(j).len() > 0);
            }
            assert forall|x: u128| key_seq(r@).contains(x) implies (exists|p: Seq<u128>|
                #[trigger] self.node_map().dom().contains(p) && p.len() > 0 && p.last() == x) by {
                let j = choose|j: int| 0 <= j < i && (#[trigger] self.nodes.key_at(j)).len() > 0 && self.nodes.key_at(j).last() == x;
                assert(self.node_map().dom().contains(self.nodes.key_at(j)));
            }
        }
        r
    }

    /// Label and type of each input slot of the input proxy `input_proxy_id`
    /// under `sg_path`: the external input schema of that SubGraph.
    pub fn subgraph_external_inputs(&self, sg_path: &NodePath, input_proxy_id: NodeId) -> (r: Vec<(&'static str, DataType)>)
        requires
            self.wf(),
        ensures
            r@.len() == self.inputs(sg_path@.push(input_proxy_id@)).len(),
            forall|i: int| 0 <= i < r@.len() ==> (#[trigger] r@[i]).0 == self.inputs(sg_path@.push(input_proxy_id@))[i].label
                && r@[i].1 == self.inputs(sg_path@.push(input_proxy_id@))[i].data_type,
    {
        let p = sg_path.child(input_proxy_id);
        self.input_schema(&p)
    }

    /// Label and type of each input slot of the output proxy
    /// `output_proxy_id` under `sg_path`: the external output schema of
    /// that SubGraph.
    pub fn subgraph_external_outputs(&self, sg_path: &NodePath, output_proxy_id: NodeId) -> (r: Vec<(&'static str, DataType)>)
        requires
            self.wf(),
        ensures
            r@.len() == self.inputs(sg_path@.push(output_proxy_id@)).len(),
            forall|i: int| 0 <= i < r@.len() ==> (#[trigger] r@[i]).0 == self.inputs(sg_path@.push(output_proxy_id@))[i].label
                && r@[i].1 == self.inputs(sg_path@.push(output_proxy_id@))[i].data_type,
    {
        let p = sg_path.child(output_proxy_id);
        self.input_schema(&p)
    }

    fn input_schema(&self, p: &NodePath) -> (r: Vec<(&'static str, DataType)>)
        requires
            self.wf(),
        ensures
            r@.len() == self.inputs(p@).len(),
            forall|i: int| 0 <= i < r@.len() ==> (#[trigger] r@[i]).0 == self.inputs(p@)[i].label
                && r@[i].1 == self.inputs(p@)[i].data_type,
    {
        let n = self.input_slot_count(p);
        let mut r: Vec<(&'static str, DataType)> = Vec::new();
        let mut i: usize = 0;
        while i < n
            invariant
                self.wf(),
                n == self.inputs(p@).len(),
                i <= n,
                r@.len() == i,
                forall|j: int| 0 <= j < i ==> (#[trigger] r@[j]).0 == self.inputs(p@)[j].label
                    && r@[j].1 == self.inputs(p@)[j].data_type,
            decreases n - i,
        {
            match self.input_slot(p, i) {
                Some(s) => {
                    r.push((s.label, s.data_type));
                },
                None => {},
            }
            i = i + 1;
        }
        r
    }

    /// The node path and index of the input slot with id `sid`.
    pub fn input_slot_owner(&self, sid: &InputSlotId) -> (r: Option<(NodePath, usize)>)
        requires
            self.wf(),
        ensures
            match r {
                Some((p, i)) => i < self.inputs(p@).len() && self.inputs(p@)[i as int].id@ == sid@,
                None => forall|p: Seq<u128>, i: int| 0 <= i < self.inputs(p).len() ==> #[trigger] self.inputs(p)[i].id@ != sid@,
            },
    {
        let mut k: usize = 0;
        proof {
            self.input_slots.lemma_entries();
        }
        while k < self.input_slots.len()
            invariant
                self.wf(),
                k <= self.input_slots.spec_len(),
                forall|a: int, i: int| 0 <= a < k && 0 <= i < self.input_slots.value_at(a)@.len()
                    ==> #[trigger] self.input_slots.value_at(a)@[i].id@ != sid@,
            decreases self.input_slots.spec_len() - k,
        {
            let v = self.input_slots.value(k);
            let mut i: usize = 0;
            while i < v.len()
                invariant
                    self.wf(),
                    k < self.input_slots.spec_len(),
                    *v == self.input_slots.value_at(k as int),
                    i <= v@.len(),
                    forall|j: int| 0 <= j < i ==> (#[trigger] v@[j]).id@ != sid@,
                decreases v@.len() - i,
            {
                if v[i].id.same_key(sid) {
                    let p = self.input_slots.key(k).clone();
                    proof {
                        self.input_slots.lemma_entries();
                    }
                    return Some((p, i));
                }
                i = i + 1;
            }
            k = k + 1;
        }
        proof {
            assert forall|p: Seq<u128>, i: int| 0 <= i < self.inputs(p).len() implies #[trigger] self.inputs(p)[i].id@ != sid@ by {
                let a = choose|a: int| 0 <= a < self.input_slots.spec_len() && #[trigger] self.input_slots.key_at(a) == p;
                assert(self.input_slots.value_at(a)@[i] == self.inputs(p)[i]);
            }
        }
        None
    }

    /// The node path and index of the output slot with id `sid`.
    pub fn output_slot_owner(&self, sid: &OutputSlotId) -> (r: Option<(NodePath, usize)>)
        requires
            self.wf(),
        ensures
            match r {
                Some((p, i)) => i < self.outputs(p@).len() && self.outputs(p@)[i as int].id@ == sid@,
                None => forall|p: Seq<u128>, i: int| 0 <= i < self.outputs(p).len() ==> #[trigger] self.outputs(p)[i].id@ != sid@,
            },
    {
        let mut k: usize = 0;
        proof {
            self.output_slots.lemma_entries();
        }
        while k < self.output_slots.len()
            invariant
                self.wf(),
                k <= self.output_slots.spec_len(),
                forall|a: int, i: int| 0 <= a < k && 0 <= i < self.output_slots.value_at(a)@.len()
                    ==> #[trigger] self.output_slots.value_at(a)@[i].id@ != sid@,
            decreases self.output_slots.spec_len() - k,
        {
            let v = self.output_slots.value(k);
            let mut i: usize = 0;
            while i < v.len()
                invariant
                    self.wf(),
                    k < self.output_slots.spec_len(),
                    *v == self.output_slots.value_at(k as int),
                    i <= v@.len(),
                    forall|j: int| 0 <= j < i ==> (#[trigger] v@[j]).id@ != sid@,
                decreases v@.len() - i,
            {
                if v[i].id.same_key(sid) {
                    let p = self.output_slots.key(k).clone();
                    proof {
                        self.output_slots.lemma_entries();
                    }
                    return Some((p, i));
                }
                i = i + 1;
            }
            k = k + 1;
        }
        proof {
            assert forall|p: Seq<u128>, i: int| 0 <= i < self.outputs(p).len() implies #[trigger] self.outputs(p)[i].id@ != sid@ by {
                let a = choose|a: int| 0 <= a < self.output_slots.spec_len() && #[trigger] self.output_slots.key_at(a) == p;
                assert(self.output_slots.value_at(a)@[i] == self.outputs(p)[i]);
            }
        }
        None
    }

    /// The outcome of moving edge `edge_id` to position `new_index` of its
    /// source slot's connection list, answering `r`.
    pub open spec fn output_edge_reordered(&self, prev: &Self, edge_id: u128, new_index: usize, r: bool) -> bool {
        &&& r == (prev.edge_map().dom().contains(edge_id) && prev.output_edges(
                    prev.edge_map()[edge_id].from_output_slot_id@,
                ).contains(edge_id))
        &&& !r ==> *self == *prev
        &&& r ==> {
                    let e = prev.edge_map()[edge_id];
                    &&& forall|s: u128| #[trigger] self.output_edges(s) == if s == e.from_output_slot_id@ {
                        moved(prev.output_edges(s), edge_id, new_index as int)
                    } else {
                        prev.output_edges(s)
                    }
                    &&& forall|s: u128| #[trigger] self.input_edges(s) == prev.input_edges(s)
                    &&& forall|q: Seq<u128>| #[trigger] self.outgoing(q) == prev.outgoing(q)
                    &&& forall|q: Seq<u128>| #[trigger] self.incoming(q) == prev.incoming(q)
                    &&& self.changed() == prev.changed().insert(e.from_node@)
                    &&& self.edge_map() == prev.edge_map()
                    &&& self.node_map() == prev.node_map()
                    &&& self.same_slots(prev)
                    &&& self.same_children(prev)
                    &&& self.generation() == Self::bumped(prev.generation())
                }
    }

    /// Moves the edge `edge_id` to position `new_index` (or last) among
    /// the edges of its output slot and marks its source node changed.
    /// `false`, with nothing changed, when there is no such edge or its
    /// slot's list does not hold it.
    pub fn reorder_output_edge(&mut self, edge_id: &EdgeId, new_index: usize) -> (r: bool)
        requires
            old(self).wf(),
        ensures
            final(self).wf(),
            final(self).output_edge_reordered(&*old(self), edge_id@, new_index, r),
    {
        let (slot, from) = match self.edges.get(edge_id) {
            None => {
                return false;
            },
            Some(e) => (e.from_output_slot_id, e.from_node.clone()),
        };
        let ghost pre = *self;
        if !move_edge_in(&mut self.output_connections, &slot, edge_id, new_index) {
            return false;
        }
        proof {
            Self::lemma_lists_after_move_output(&pre, &*self, slot@, edge_id@, new_index as int);
        }
        self.changed_nodes.insert(from, ());
        self.bump();
        proof {
            assert forall|s: u128| #[trigger] self.input_edges(s) == pre.input_edges(s) by {
                assert(self.input_connections == pre.input_connections);
            }
            assert forall|q: Seq<u128>| #[trigger] self.outgoing(q) == pre.outgoing(q) by {
                assert(self.outgoing_edges == pre.outgoing_edges);
            }
            assert forall|q: Seq<u128>| #[trigger] self.incoming(q) == pre.incoming(q) by {
                assert(self.incoming_edges == pre.incoming_edges);
            }
            assert forall|q: Seq<u128>| #[trigger] self.inputs(q) == pre.inputs(q) by {
                assert(self.input_slots == pre.input_slots);
            }
            assert forall|q: Seq<u128>| #[trigger] self.outputs(q) == pre.outputs(q) by {
                assert(self.output_slots == pre.output_slots);
            }
            assert forall|q: Seq<u128>| #[trigger] self.children(q) == pre.children(q) by {
                assert(self.path_index == pre.path_index);
            }
        }
        true
    }

    /// The outcome of moving edge `edge_id` to position `new_index` of its
    /// target slot's connection list, answering `r`.
    pub open spec fn input_edge_reordered(&self, prev: &Self, edge_id: u128, new_index: usize, r: bool) -> bool {
        &&& r == (prev.edge_map().dom().contains(edge_id) && prev.input_edges(
                    prev.edge_map()[edge_id].to_input_slot_id@,
                ).contains(edge_id))
        &&& !r ==> *self == *prev
        &&& r ==> {
                    let e = prev.edge_map()[edge_id];
                    &&& forall|s: u128| #[trigger] self.input_edges(s) == if s == e.to_input_slot_id@ {
                        moved(prev.input_edges(s), edge_id, new_index as int)
                    } else {
                        prev.input_edges(s)
                    }
                    &&& forall|s: u128| #[trigger] self.output_edges(s) == prev.output_edges(s)
                    &&& forall|q: Seq<u128>| #[trigger] self.outgoing(q) == prev.outgoing(q)
                    &&& forall|q: Seq<u128>| #[trigger] self.incoming(q) == prev.incoming(q)
                    &&& self.changed() == prev.changed().insert(e.to_node@)
                    &&& self.edge_map() == prev.edge_map()
                    &&& self.node_map() == prev.node_map()
                    &&& self.same_slots(prev)
                    &&& self.same_children(prev)
                    &&& self.generation() == Self::bumped(prev.generation())
                }
    }

    /// Moves the edge `edge_id` to position `new_index` (or last) among
    /// the edges of its input slot and marks its target node changed.
    /// `false`, with nothing changed, when there is no such edge or its
    /// slot's list does not hold it.
    pub fn reorder_input_edge(&mut self, edge_id: &EdgeId, new_index: usize) -> (r: bool)
        requires
            old(self).wf(),
        ensures
            final(self).wf(),
            final(self).input_edge_reordered(&*old(self), edge_id@, new_index, r),
    {
        let (slot, to) = match self.edges.get(edge_id) {
            None => {
                return false;
            },
            Some(e) => (e.to_input_slot_id, e.to_node.clone()),
        };
        let ghost pre = *self;
        if !move_edge_in(&mut self.input_connections, &slot, edge_id, new_index) {
            return false;
        }
        proof {
            Self::lemma_lists_after_move_input(&pre, &*self, slot@, edge_id@, new_index as int);
        }
        self.changed_nodes.insert(to, ());
        self.bump();
        proof {
            assert forall|s: u128| #[trigger] self.output_edges(s) == pre.output_edges(s) by {
                assert(self.output_connections == pre.output_connections);
            }
            assert forall|q: Seq<u128>| #[trigger] self.outgoing(q) == pre.outgoing(q) by {
                assert(self.outgoing_edges == pre.outgoing_edges);
            }
            assert forall|q: Seq<u128>| #[trigger] self.incoming(q) == pre.incoming(q) by {
                assert(self.incoming_edges == pre.incoming_edges);
            }
            assert forall|q: Seq<u128>| #[trigger] self.inputs(q) == pre.inputs(q) by {
                assert(self.input_slots == pre.input_slots);
            }
            assert forall|q: Seq<u128>| #[trigger] self.outputs(q) == pre.outputs(q) by {
                assert(self.output_slots == pre.output_slots);
            }
            assert forall|q: Seq<u128>| #[trigger] self.children(q) == pre.children(q) by {
                assert(self.path_index == pre.path_index);
            }
        }
        true
    }

    /// `self` is `old` without the node at `path`: its record, slot tables,
    /// children-index entry and every edge leaving or entering it (their
    /// targets marked changed), the generation moved.
    pub open spec fn node_removed(&self, prev: &Self, path: Seq<u128>) -> bool {
        let gone = |x: u128| gone_edge(prev.edge_map(), path, x);
        &&& self.node_map() == prev.node_map().remove(path)
        &&& self.inputs(path) == Seq::<InputSlotState<V>>::empty()
        &&& self.outputs(path) == Seq::<OutputSlotState>::empty()
        &&& forall|q: Seq<u128>| q != path ==> #[trigger] self.inputs(q) == prev.inputs(q)
        &&& forall|q: Seq<u128>| q != path ==> #[trigger] self.outputs(q) == prev.outputs(q)
        &&& self.edge_map() == prev.edge_map().remove_keys(Set::new(|x: u128| gone_edge(prev.edge_map(), path, x)))
        &&& forall|s: u128| #[trigger] self.input_edges(s) == seq_drop_set(prev.input_edges(s),
            Set::new(|x: u128| gone_edge(prev.edge_map(), path, x) && prev.edge_map()[x].to_input_slot_id@ == s))
        &&& forall|s: u128| #[trigger] self.output_edges(s) == seq_drop_set(prev.output_edges(s),
            Set::new(|x: u128| gone_edge(prev.edge_map(), path, x) && prev.edge_map()[x].from_output_slot_id@ == s))
        &&& forall|q: Seq<u128>| #[trigger] self.outgoing(q) == seq_drop_set(prev.outgoing(q),
            Set::new(|x: u128| gone_edge(prev.edge_map(), path, x) && prev.edge_map()[x].from_node@ == q))
        &&& forall|q: Seq<u128>| #[trigger] self.incoming(q) == seq_drop_set(prev.incoming(q),
            Set::new(|x: u128| gone_edge(prev.edge_map(), path, x) && prev.edge_map()[x].to_node@ == q))
        &&& self.changed() == prev.changed() + Set::new(
            |q: Seq<u128>| exists|x: u128| gone_edge(prev.edge_map(), path, x) && #[trigger] prev.edge_map()[x].to_node@ == q,
        )
        &&& forall|q: Seq<u128>| #[trigger] self.children(q) == if path.len() > 0 && q == path.drop_last() {
            seq_without(prev.children(q), path.last())
        } else {
            prev.children(q)
        }
        &&& self.generation() == Self::bumped(prev.generation())
    }

    /// The edges of `m` that leave or enter a member of `ps`.
    pub open spec fn edges_touching_set(m: Map<u128, Edge>, ps: Set<Seq<u128>>) -> Set<u128> {
        Set::new(|x: u128| exists|q: Seq<u128>| #[trigger] ps.contains(q) && gone_edge(m, q, x))
    }

    /// `self` is `old` without the nodes at the paths of `ps`, each taken
    /// out as `remove_node` does.
    pub open spec fn nodes_removed(&self, prev: &Self, ps: Set<Seq<u128>>) -> bool {
        let e = Self::edges_touching_set(prev.edge_map(), ps);
        &&& self.node_map() == prev.node_map().remove_keys(ps)
        &&& forall|q: Seq<u128>| #[trigger] self.inputs(q) == if ps.contains(q) { Seq::<InputSlotState<V>>::empty() } else { prev.inputs(q) }
        &&& forall|q: Seq<u128>| #[trigger] self.outputs(q) == if ps.contains(q) { Seq::<OutputSlotState>::empty() } else { prev.outputs(q) }
        &&& self.edge_map() == prev.edge_map().remove_keys(e)
        &&& forall|s: u128| #[trigger] self.input_edges(s) == seq_drop_set(prev.input_edges(s),
            Set::new(|x: u128| e.contains(x) && prev.edge_map()[x].to_input_slot_id@ == s))
        &&& forall|s: u128| #[trigger] self.output_edges(s) == seq_drop_set(prev.output_edges(s),
            Set::new(|x: u128| e.contains(x) && prev.edge_map()[x].from_output_slot_id@ == s))
        &&& forall|q: Seq<u128>| #[trigger] self.outgoing(q) == seq_drop_set(prev.outgoing(q),
            Set::new(|x: u128| e.contains(x) && prev.edge_map()[x].from_node@ == q))
        &&& forall|q: Seq<u128>| #[trigger] self.incoming(q) == seq_drop_set(prev.incoming(q),
            Set::new(|x: u128| e.contains(x) && prev.edge_map()[x].to_node@ == q))
        &&& self.changed() == prev.changed() + Set::new(
            |q: Seq<u128>| exists|x: u128| e.contains(x) && #[trigger] prev.edge_map()[x].to_node@ == q,
        )
        &&& forall|q: Seq<u128>| #[trigger] self.children(q) == seq_drop_set(prev.children(q),
            Set::new(|c: u128| ps.contains(q.push(c))))
        &&& prev.generation() <= self.generation()
    }

    /// Removing nothing leaves the state as it is.
    pub proof fn lemma_nodes_removed_none(&self)
        ensures
            self.nodes_removed(self, Set::empty()),
    {
        let e = Self::edges_touching_set(self.edge_map(), Set::empty());
        assert(e =~= Set::empty());
        assert(self.node_map().remove_keys(Set::empty()) =~= self.node_map());
        assert(self.edge_map().remove_keys(e) =~= self.edge_map());
        assert forall|s: u128| #[trigger] self.input_edges(s) == seq_drop_set(self.input_edges(s),
            Set::new(|x: u128| e.contains(x) && self.edge_map()[x].to_input_slot_id@ == s)) by {
            lemma_drop_set_disjoint(self.input_edges(s), Set::new(|x: u128| e.contains(x) && self.edge_map()[x].to_input_slot_id@ == s));
        }
        assert forall|s: u128| #[trigger] self.output_edges(s) == seq_drop_set(self.output_edges(s),
            Set::new(|x: u128| e.contains(x) && self.edge_map()[x].from_output_slot_id@ == s)) by {
            lemma_drop_set_disjoint(self.output_edges(s), Set::new(|x: u128| e.contains(x) && self.edge_map()[x].from_output_slot_id@ == s));
        }
        assert forall|q: Seq<u128>| #[trigger] self.outgoing(q) == seq_drop_set(self.outgoing(q),
            Set::new(|x: u128| e.contains(x) && self.edge_map()[x].from_node@ == q)) by {
            lemma_drop_set_disjoint(self.outgoing(q), Set::new(|x: u128| e.contains(x) && self.edge_map()[x].from_node@ == q));
        }
        assert forall|q: Seq<u128>| #[trigger] self.incoming(q) == seq_drop_set(self.incoming(q),
            Set::new(|x: u128| e.contains(x) && self.edge_map()[x].to_node@ == q)) by {
            lemma_drop_set_disjoint(self.incoming(q), Set::new(|x: u128| e.contains(x) && self.edge_map()[x].to_node@ == q));
        }
        assert forall|q: Seq<u128>| #[trigger] self.children(q) == seq_drop_set(self.children(q),
            Set::new(|c: u128| Set::<Seq<u128>>::empty().contains(q.push(c)))) by {
            lemma_drop_set_disjoint(self.children(q), Set::new(|c: u128| Set::<Seq<u128>>::empty().contains(q.push(c))));
        }
        assert(self.changed() =~= self.changed() + Set::new(
            |q: Seq<u128>| exists|x: u128| e.contains(x) && #[trigger] self.edge_map()[x].to_node@ == q,
        ));
    }

    /// Taking out one more node after a set of them is taking out the
    /// larger set.
    pub proof fn lemma_nodes_removed_step(a: &Self, m: &Self, f: &Self, ps: Set<Seq<u128>>, p: Seq<u128>)
        requires
            m.nodes_removed(a, ps),
            f.node_removed(m, p),
        ensures
            f.nodes_removed(a, ps.insert(p)),
    {
        let ep = Self::edges_touching_set(a.edge_map(), ps);
        let g = Set::new(|x: u128| gone_edge(m.edge_map(), p, x));
        let en = Self::edges_touching_set(a.edge_map(), ps.insert(p));
        assert forall|x: u128| g.contains(x) implies m.edge_map()[x] == a.edge_map()[x] && a.edge_map().dom().contains(x) by {}
        assert(en =~= ep + g) by {
            assert forall|x: u128| en.contains(x) implies (ep + g).contains(x) by {
                let q = choose|q: Seq<u128>| #[trigger] ps.insert(p).contains(q) && gone_edge(a.edge_map(), q, x);
                if q != p {
                    assert(ps.contains(q));
                } else if !ep.contains(x) {
                    assert(m.edge_map().dom().contains(x));
                }
            }
            assert forall|x: u128| (ep + g).contains(x) implies en.contains(x) by {
                if ep.contains(x) {
                    let q = choose|q: Seq<u128>| #[trigger] ps.contains(q) && gone_edge(a.edge_map(), q, x);
                    assert(ps.insert(p).contains(q));
                } else {
                    assert(ps.insert(p).contains(p));
                }
            }
        }
        assert(f.node_map() =~= a.node_map().remove_keys(ps.insert(p)));
        assert(f.edge_map() =~= a.edge_map().remove_keys(en));
        assert forall|s: u128| #[trigger] f.input_edges(s) == seq_drop_set(a.input_edges(s),
            Set::new(|x: u128| en.contains(x) && a.edge_map()[x].to_input_slot_id@ == s)) by {
            let s1 = Set::new(|x: u128| ep.contains(x) && a.edge_map()[x].to_input_slot_id@ == s);
            let s2 = Set::new(|x: u128| gone_edge(m.edge_map(), p, x) && m.edge_map()[x].to_input_slot_id@ == s);
            lemma_drop_set_union(a.input_edges(s), s1, s2);
            assert(s1 + s2 =~= Set::new(|x: u128| en.contains(x) && a.edge_map()[x].to_input_slot_id@ == s));
        }
        assert forall|s: u128| #[trigger] f.output_edges(s) == seq_drop_set(a.output_edges(s),
            Set::new(|x: u128| en.contains(x) && a.edge_map()[x].from_output_slot_id@ == s)) by {
            let s1 = Set::new(|x: u128| ep.contains(x) && a.edge_map()[x].from_output_slot_id@ == s);
            let s2 = Set::new(|x: u128| gone_edge(m.edge_map(), p, x) && m.edge_map()[x].from_output_slot_id@ == s);
            lemma_drop_set_union(a.output_edges(s), s1, s2);
            assert(s1 + s2 =~= Set::new(|x: u128| en.contains(x) && a.edge_map()[x].from_output_slot_id@ == s));
        }
        assert forall|q: Seq<u128>| #[trigger] f.outgoing(q) == seq_drop_set(a.outgoing(q),
            Set::new(|x: u128| en.contains(x) && a.edge_map()[x].from_node@ == q)) by {
            let s1 = Set::new(|x: u128| ep.contains(x) && a.edge_map()[x].from_node@ == q);
            let s2 = Set::new(|x: u128| gone_edge(m.edge_map(), p, x) && m.edge_map()[x].from_node@ == q);
            lemma_drop_set_union(a.outgoing(q), s1, s2);
            assert(s1 + s2 =~= Set::new(|x: u128| en.contains(x) && a.edge_map()[x].from_node@ == q));
        }
        assert forall|q: Seq<u128>| #[trigger] f.incoming(q) == seq_drop_set(a.incoming(q),
            Set::new(|x: u128| en.contains(x) && a.edge_map()[x].to_node@ == q)) by {
            let s1 = Set::new(|x: u128| ep.contains(x) && a.edge_map()[x].to_node@ == q);
            let s2 = Set::new(|x: u128| gone_edge(m.edge_map(), p, x) && m.edge_map()[x].to_node@ == q);
            lemma_drop_set_union(a.incoming(q), s1, s2);
            assert(s1 + s2 =~= Set::new(|x: u128| en.contains(x) && a.edge_map()[x].to_node@ == q));
        }
        assert(f.changed() =~= a.changed() + Set::new(
            |q: Seq<u128>| exists|x: u128| en.contains(x) && #[trigger] a.edge_map()[x].to_node@ == q,
        )) by {
            assert forall|q: Seq<u128>| f.changed().contains(q) <==> (a.changed() + Set::new(
                |q: Seq<u128>| exists|x: u128| en.contains(x) && #[trigger] a.edge_map()[x].to_node@ == q,
            )).contains(q) by {
                if exists|x: u128| en.contains(x) && #[trigger] a.edge_map()[x].to_node@ == q {
                    let x = choose|x: u128| en.contains(x) && #[trigger] a.edge_map()[x].to_node@ == q;
                    if !ep.contains(x) {
                        assert(g.contains(x));
                        assert(gone_edge(m.edge_map(), p, x) && m.edge_map()[x].to_node@ == q);
                    }
                }
                if exists|x: u128| ep.contains(x) && #[trigger] a.edge_map()[x].to_node@ == q {
                    let x = choose|x: u128| ep.contains(x) && #[trigger] a.edge_map()[x].to_node@ == q;
                    assert(en.contains(x));
                }
                if exists|x: u128| gone_edge(m.edge_map(), p, x) && #[trigger] m.edge_map()[x].to_node@ == q {
                    let x = choose|x: u128| gone_edge(m.edge_map(), p, x) && #[trigger] m.edge_map()[x].to_node@ == q;
                    assert(g.contains(x));
                    assert(en.contains(x));
                    assert(a.edge_map()[x].to_node@ == q);
                }
            }
        }
        assert forall|q: Seq<u128>| #[trigger] f.children(q) == seq_drop_set(a.children(q),
            Set::new(|c: u128| ps.insert(p).contains(q.push(c)))) by {
            let cp = Set::new(|c: u128| ps.contains(q.push(c)));
            let cn = Set::new(|c: u128| ps.insert(p).contains(q.push(c)));
            if p.len() > 0 && q == p.drop_last() {
                lemma_drop_set_then_without(a.children(q), cp, p.last());
                assert(q.push(p.last()) =~= p);
                assert(cp.insert(p.last()) =~= cn);
            } else {
                assert(cp =~= cn) by {
                    assert forall|c: u128| cn.contains(c) implies cp.contains(c) by {
                        if q.push(c) == p {
                            assert(p.drop_last() =~= q);
                        }
                    }
                }
            }
        }
        assert forall|q: Seq<u128>| #[trigger] f.inputs(q) == if ps.insert(p).contains(q) { Seq::<InputSlotState<V>>::empty() } else { a.inputs(q) } by {
            if q != p {
                assert(f.inputs(q) == m.inputs(q));
            }
        }
        assert forall|q: Seq<u128>| #[trigger] f.outputs(q) == if ps.insert(p).contains(q) { Seq::<OutputSlotState>::empty() } else { a.outputs(q) } by {
            if q != p {
                assert(f.outputs(q) == m.outputs(q));
            }
        }
    }

    /// Removes the node at `path`: its children-index entry, every edge
    /// that leaves or enters it (their targets are marked changed), its
    /// slot tables and its record, which is returned.
    pub fn remove_node(&mut self, path: &NodePath) -> (r: Option<NodeState<D>>)
        requires
            old(self).wf(),
        ensures
            final(self).wf(),
            match r {
                Some(st) => old(self).node_map().dom().contains(path@) && st == old(self).node_map()[path@],
                None => !old(self).node_map().dom().contains(path@),
            },
            final(self).node_removed(&*old(self), path@),
    {
        self.path_index.remove(path);
        let ghost mid = *self;
        proof {
            assert forall|s: u128| #[trigger] mid.input_edges(s) == old(self).input_edges(s) by {
                assert(mid.input_connections == old(self).input_connections);
            }
            assert forall|s: u128| #[trigger] mid.output_edges(s) == old(self).output_edges(s) by {
                assert(mid.output_connections == old(self).output_connections);
            }
            assert forall|q: Seq<u128>| #[trigger] mid.outgoing(q) == old(self).outgoing(q) by {
                assert(mid.outgoing_edges == old(self).outgoing_edges);
            }
            assert forall|q: Seq<u128>| #[trigger] mid.incoming(q) == old(self).incoming(q) by {
                assert(mid.incoming_edges == old(self).incoming_edges);
            }
        }
        self.remove_edges_for_node_at(path);
        let ghost mid2 = *self;
        self.input_slots.remove(path);
        self.output_slots.remove(path);
        let r = self.nodes.remove(path);
        proof {
            assert forall|s: u128| #[trigger] self.input_edges(s) == mid2.input_edges(s) by {
                assert(self.input_connections == mid2.input_connections);
            }
            assert forall|s: u128| #[trigger] self.output_edges(s) == mid2.output_edges(s) by {
                assert(self.output_connections == mid2.output_connections);
            }
            assert forall|q: Seq<u128>| #[trigger] self.outgoing(q) == mid2.outgoing(q) by {
                assert(self.outgoing_edges == mid2.outgoing_edges);
            }
            assert forall|q: Seq<u128>| #[trigger] self.incoming(q) == mid2.incoming(q) by {
                assert(self.incoming_edges == mid2.incoming_edges);
            }
            assert forall|q: Seq<u128>| #[trigger] self.children(q) == mid2.children(q) by {
                assert(self.path_index == mid2.path_index);
            }
            assert forall|q: Seq<u128>| q != path@ implies #[trigger] self.inputs(q) == old(self).inputs(q) by {
                assert(mid2.inputs(q) == mid.inputs(q));
                assert(mid.input_slots == old(self).input_slots);
            }
            assert forall|q: Seq<u128>| q != path@ implies #[trigger] self.outputs(q) == old(self).outputs(q) by {
                assert(mid2.outputs(q) == mid.outputs(q));
                assert(mid.output_slots == old(self).output_slots);
            }
        }
        r
    }

    /// `p` lies at or below `root`, every step down being a child recorded
    /// under the path above it.
    pub open spec fn descends(&self, root: Seq<u128>, p: Seq<u128>) -> bool {
        &&& root.len() <= p.len()
        &&& p.subrange(0, root.len() as int) == root
        &&& forall|k: int| root.len() <= k < p.len() ==> #[trigger] self.children(p.subrange(0, k)).contains(p[k])
    }

    proof fn lemma_descends_step(&self, root: Seq<u128>, y: Seq<u128>, c: u128)
        requires
            root.len() <= y.len(),
        ensures
            self.descends(root, y.push(c)) <==> (self.descends(root, y) && self.children(y).contains(c)),
    {
        let x = y.push(c);
        assert(x.subrange(0, y.len() as int) =~= y);
        assert(x.subrange(0, root.len() as int) =~= y.subrange(0, root.len() as int));
        if self.descends(root, x) {
            assert forall|k: int| root.len() <= k < y.len() implies #[trigger] self.children(y.subrange(0, k)).contains(y[k]) by {
                assert(x.subrange(0, k) =~= y.subrange(0, k));
                assert(self.children(x.subrange(0, k)).contains(x[k]));
            }
            assert(self.children(x.subrange(0, y.len() as int)).contains(x[y.len() as int]));
        }
        if self.descends(root, y) && self.children(y).contains(c) {
            assert forall|k: int| root.len() <= k < x.len() implies #[trigger] self.children(x.subrange(0, k)).contains(x[k]) by {
                if k < y.len() {
                    assert(x.subrange(0, k) =~= y.subrange(0, k));
                    assert(self.children(y.subrange(0, k)).contains(y[k]));
                }
            }
        }
    }

    proof fn lemma_descends_prefix(&self, root: Seq<u128>, x: Seq<u128>, d: int)
        requires
            self.descends(root, x),
            root.len() <= d <= x.len(),
        ensures
            self.descends(root, x.subrange(0, d)),
    {
        let y = x.subrange(0, d);
        assert(y.subrange(0, root.len() as int) =~= x.subrange(0, root.len() as int));
        assert forall|k: int| root.len() <= k < y.len() implies #[trigger] self.children(y.subrange(0, k)).contains(y[k]) by {
            assert(y.subrange(0, k) =~= x.subrange(0, k));
            assert(self.children(x.subrange(0, k)).contains(x[k]));
        }
    }

    /// Marks changed every node at or below `root` in the children index.
    pub fn mark_all_changed_at(&mut self, root: &NodePath)
        requires
            old(self).wf(),
        ensures
            final(self).wf(),
            final(self).changed() == old(self).changed() + Set::new(
                |p: Seq<u128>| old(self).node_map().dom().contains(p) && old(self).descends(root@, p),
            ),
            final(self).node_map() == old(self).node_map(),
            final(self).edge_map() == old(self).edge_map(),
            final(self).same_edge_indexes(&*old(self)),
            final(self).same_slots(&*old(self)),
            final(self).same_children(&*old(self)),
            final(self).generation() == old(self).generation(),
    {
        let ghost st = *old(self);
        let ghost db = self.path_index.depth_bound();
        let ghost bound: int = if db + 1 > root@.len() { (db + 1) as int } else { root@.len() as int };
        let ghost r = root@;
        let mut level: Vec<NodePath> = Vec::new();
        level.push(root.clone());
        let ghost mut depth: int = root@.len() as int;
        proof {
            assert(r.subrange(0, r.len() as int) =~= r);
            assert forall|x: Seq<u128>| key_seq(level@).contains(x) <==> (st.descends(r, x) && x.len() == depth) by {
                if st.descends(r, x) && x.len() == depth {
                    assert(x =~= x.subrange(0, r.len() as int));
                    assert(key_seq(level@)[0] == x);
                }
            }
            assert(self.changed() =~= st.changed() + Set::new(
                |p: Seq<u128>| st.node_map().dom().contains(p) && st.descends(r, p) && p.len() < depth,
            ));
        }
        while level.len() > 0
            invariant
                self.wf(),
                st == *old(self),
                r == root@,
                db == st.path_index.depth_bound(),
                bound == if db + 1 > r.len() { (db + 1) as int } else { r.len() as int },
                r.len() <= depth,
                depth <= bound + 1,
                forall|x: Seq<u128>| key_seq(level@).contains(x) <==> (st.descends(r, x) && x.len() == depth),
                self.changed() == st.changed() + Set::new(
                    |p: Seq<u128>| st.node_map().dom().contains(p) && st.descends(r, p) && p.len() < depth,
                ),
                self.nodes == st.nodes,
                self.edges == st.edges,
                self.input_slots == st.input_slots,
                self.output_slots == st.output_slots,
                self.input_connections == st.input_connections,
                self.output_connections == st.output_connections,
                self.outgoing_edges == st.outgoing_edges,
                self.incoming_edges == st.incoming_edges,
                self.path_index == st.path_index,
                self.generation == st.generation,
            decreases bound + 1 - depth,
        {
            proof {
                let x0 = level@[0]@;
                assert(key_seq(level@)[0] == x0);
                assert(st.descends(r, x0) && x0.len() == depth);
                if depth > r.len() {
                    assert(st.children(x0.subrange(0, depth - 1)).contains(x0[depth - 1]));
                    st.path_index.lemma_depth_bound(x0.subrange(0, depth - 1));
                }
            }
            let mut next: Vec<NodePath> = Vec::new();
            let mut i: usize = 0;
            while i < level.len()
                invariant
                    self.wf(),
                    st == *old(self),
                    r == root@,
                    i <= level@.len(),
                    r.len() <= depth,
                    forall|x: Seq<u128>| key_seq(level@).contains(x) <==> (st.descends(r, x) && x.len() == depth),
                    forall|x: Seq<u128>| key_seq(next@).contains(x) <==> exists|j: int, c: u128|
                        0 <= j < i && #[trigger] st.children(level@[j]@).contains(c) && x == #[trigger] level@[j]@.push(c),
                    self.changed() == st.changed() + Set::new(
                        |p: Seq<u128>| st.node_map().dom().contains(p) && st.descends(r, p) && p.len() < depth,
                    ) + Set::new(|p: Seq<u128>| st.node_map().dom().contains(p) && exists|j: int| 0 <= j < i && #[trigger] level@[j]@ == p),
                    self.nodes == st.nodes,
                    self.edges == st.edges,
                    self.input_slots == st.input_slots,
                    self.output_slots == st.output_slots,
                    self.input_connections == st.input_connections,
                    self.output_connections == st.output_connections,
                    self.outgoing_edges == st.outgoing_edges,
                    self.incoming_edges == st.incoming_edges,
                    self.path_index == st.path_index,
                    self.generation == st.generation,
                decreases level@.len() - i,
            {
                let p = &level[i];
                if self.nodes.contains_key(p) {
                    self.changed_nodes.insert(p.clone(), ());
                }
                let kids = self.path_index.children_of(p);
                assert(key_seq(kids@) == st.children(p@));
                let ghost next0 = next@;
                let mut k: usize = 0;
                while k < kids.len()
                    invariant
                        k <= kids@.len(),
                        next@.len() == next0.len() + k,
                        forall|t: int| 0 <= t < next0.len() ==> #[trigger] next@[t] == next0[t],
                        forall|t: int| 0 <= t < k ==> (#[trigger] next@[next0.len() + t])@ == p@.push(kids@[t]@),
                    decreases kids@.len() - k,
                {
                    next.push(p.child(kids[k]));
                    k = k + 1;
                }
                proof {
                    assert forall|x: Seq<u128>| key_seq(next@).contains(x) <==> exists|j: int, c: u128|
                        0 <= j < i + 1 && #[trigger] st.children(level@[j]@).contains(c) && x == #[trigger] level@[j]@.push(c) by {
                        if key_seq(next@).contains(x) {
                            let t = choose|t: int| 0 <= t < key_seq(next@).len() && key_seq(next@)[t] == x;
                            if t < next0.len() {
                                assert(key_seq(next0)[t] == x);
                                assert(key_seq(next0).contains(x));
                            } else {
                                let u = t - next0.len();
                                assert(next@[next0.len() + u]@ == p@.push(kids@[u]@));
                                assert(key_seq(kids@)[u] == kids@[u]@);
                                assert(st.children(level@[i as int]@).contains(kids@[u]@));
                                assert(x == level@[i as int]@.push(kids@[u]@));
                            }
                        }
                        if exists|j: int, c: u128|
                            0 <= j < i + 1 && #[trigger] st.children(level@[j]@).contains(c) && x == #[trigger] level@[j]@.push(c) {
                            let (j, c) = choose|j: int, c: u128|
                                0 <= j < i + 1 && #[trigger] st.children(level@[j]@).contains(c) && x == #[trigger] level@[j]@.push(c);
                            if j < i {
                                assert(key_seq(next0).contains(x));
                                let t = choose|t: int| 0 <= t < key_seq(next0).len() && key_seq(next0)[t] == x;
                                assert(key_seq(next@)[t] == x);
                            } else {
                                let u = choose|u: int| 0 <= u < key_seq(kids@).len() && key_seq(kids@)[u] == c;
                                assert(next@[next0.len() + u]@ == x);
                                assert(key_seq(next@)[next0.len() + u] == x);
                            }
                        }
                    }
                    assert(self.changed() =~= st.changed() + Set::new(
                        |q: Seq<u128>| st.node_map().dom().contains(q) && st.descends(r, q) && q.len() < depth,
                    ) + Set::new(|q: Seq<u128>| st.node_map().dom().contains(q) && exists|j: int| 0 <= j < i + 1 && #[trigger] level@[j]@ == q)) by {
                        assert forall|q: Seq<u128>| (st.node_map().dom().contains(q) && exists|j: int| 0 <= j < i + 1 && #[trigger] level@[j]@ == q)
                            == ((st.node_map().dom().contains(q) && exists|j: int| 0 <= j < i && #[trigger] level@[j]@ == q)
                            || (st.node_map().dom().contains(q) && q == p@)) by {
                            if st.node_map().dom().contains(q) && exists|j: int| 0 <= j < i + 1 && #[trigger] level@[j]@ == q {
                                let j = choose|j: int| 0 <= j < i + 1 && #[trigger] level@[j]@ == q;
                                if j != i {
                                    assert(0 <= j < i);
                                }
                            }
                        }
                    }
                }
                i = i + 1;
            }
            proof {
                assert forall|x: Seq<u128>| key_seq(next@).contains(x) <==> (st.descends(r, x) && x.len() == depth + 1) by {
                    if key_seq(next@).contains(x) {
                        let (j, c) = choose|j: int, c: u128|
                            0 <= j < level@.len() && #[trigger] st.children(level@[j]@).contains(c) && x == #[trigger] level@[j]@.push(c);
                        let y = level@[j]@;
                        assert(key_seq(level@)[j] == y);
                        st.lemma_descends_step(r, y, c);
                    }
                    if st.descends(r, x) && x.len() == depth + 1 {
                        let y = x.subrange(0, depth);
                        let c = x[depth];
                        assert(x =~= y.push(c));
                        st.lemma_descends_prefix(r, x, depth);
                        st.lemma_descends_step(r, y, c);
                        assert(key_seq(level@).contains(y));
                        let j = choose|j: int| 0 <= j < key_seq(level@).len() && key_seq(level@)[j] == y;
                        assert(level@[j]@ == y);
                        assert(st.children(level@[j]@).contains(c) && x == level@[j]@.push(c));
                    }
                }
                assert(self.changed() =~= st.changed() + Set::new(
                    |q: Seq<u128>| st.node_map().dom().contains(q) && st.descends(r, q) && q.len() < depth + 1,
                )) by {
                    assert forall|q: Seq<u128>| #![trigger st.descends(r, q)] st.node_map().dom().contains(q) && st.descends(r, q) && q.len() == depth
                        implies exists|j: int| 0 <= j < level@.len() && #[trigger] level@[j]@ == q by {
                        assert(key_seq(level@).contains(q));
                        let j = choose|j: int| 0 <= j < key_seq(level@).len() && key_seq(level@)[j] == q;
                        assert(level@[j]@ == q);
                    }
                    assert forall|q: Seq<u128>| (exists|j: int| 0 <= j < level@.len() && #[trigger] level@[j]@ == q)
                        implies st.descends(r, q) && q.len() == depth by {
                        let j = choose|j: int| 0 <= j < level@.len() && #[trigger] level@[j]@ == q;
                        assert(key_seq(level@)[j] == q);
                        assert(key_seq(level@).contains(q));
                    }
                }
            }
            level = next;
            proof {
                depth = depth + 1;
            }
        }
        proof {
            assert(self.changed() =~= st.changed() + Set::new(
                |q: Seq<u128>| st.node_map().dom().contains(q) && st.descends(r, q),
            )) by {
                assert forall|q: Seq<u128>| st.descends(r, q) implies q.len() < depth by {
                    if q.len() >= depth {
                        st.lemma_descends_prefix(r, q, depth);
                        assert(key_seq(level@).contains(q.subrange(0, depth)));
                    }
                }
            }
            Self::lemma_frame(&*self, &*old(self));
        }
    }

    /// Every path at or below `root` in the children index, `root` first
    /// and each level after the one above it.
    pub fn subtree_paths(&self, root: &NodePath) -> (r: Vec<NodePath>)
        requires
            self.wf(),
        ensures
            key_seq(r@).to_set() == Set::new(|q: Seq<u128>| self.descends(root@, q)),
            r@.len() > 0 && r@[0]@ == root@,
    {
        let ghost db = self.path_index.depth_bound();
        let ghost bound: int = if db + 1 > root@.len() { (db + 1) as int } else { root@.len() as int };
        let ghost rt = root@;
        let mut all: Vec<NodePath> = Vec::new();
        let mut level: Vec<NodePath> = Vec::new();
        level.push(root.clone());
        let ghost mut depth: int = root@.len() as int;
        proof {
            assert(rt.subrange(0, rt.len() as int) =~= rt);
            assert forall|x: Seq<u128>| key_seq(level@).contains(x) <==> (self.descends(rt, x) && x.len() == depth) by {
                if self.descends(rt, x) && x.len() == depth {
                    assert(x =~= x.subrange(0, rt.len() as int));
                    assert(key_seq(level@)[0] == x);
                }
            }
            assert(key_seq(all@).to_set() =~= Set::new(|q: Seq<u128>| self.descends(rt, q) && q.len() < depth));
        }
        while level.len() > 0
            invariant
                self.wf(),
                rt == root@,
                db == self.path_index.depth_bound(),
                bound == if db + 1 > rt.len() { (db + 1) as int } else { rt.len() as int },
                rt.len() <= depth,
                depth <= bound + 1,
                forall|x: Seq<u128>| key_seq(level@).contains(x) <==> (self.descends(rt, x) && x.len() == depth),
                key_seq(all@).to_set() == Set::new(|q: Seq<u128>| self.descends(rt, q) && q.len() < depth),
                depth == rt.len() ==> all@.len() == 0 && level@.len() == 1 && level@[0]@ == rt,
                depth > rt.len() ==> all@.len() > 0 && all@[0]@ == rt,
            decreases bound + 1 - depth,
        {
            proof {
                let x0 = level@[0]@;
                assert(key_seq(level@)[0] == x0);
                assert(self.descends(rt, x0) && x0.len() == depth);
                if depth > rt.len() {
                    assert(self.children(x0.subrange(0, depth - 1)).contains(x0[depth - 1]));
                    self.path_index.lemma_depth_bound(x0.subrange(0, depth - 1));
                }
            }
            let mut next: Vec<NodePath> = Vec::new();
            let mut i: usize = 0;
            let ghost all0 = all@;
            while i < level.len()
                invariant
                    self.wf(),
                    i <= level@.len(),
                    all@.len() == all0.len() + i,
                    forall|t: int| 0 <= t < all0.len() ==> #[trigger] all@[t] == all0[t],
                    forall|t: int| 0 <= t < i ==> (#[trigger] all@[all0.len() + t])@ == level@[t]@,
                    forall|x: Seq<u128>| key_seq(next@).contains(x) <==> exists|j: int, c: u128|
                        0 <= j < i && #[trigger] self.children(level@[j]@).contains(c) && x == #[trigger] level@[j]@.push(c),
                decreases level@.len() - i,
            {
                let p = &level[i];
                all.push(p.clone());
                let kids = self.path_index.children_of(p);
                let ghost next0 = next@;
                let mut k: usize = 0;
                while k < kids.len()
                    invariant
                        k <= kids@.len(),
                        next@.len() == next0.len() + k,
                        forall|t: int| 0 <= t < next0.len() ==> #[trigger] next@[t] == next0[t],
                        forall|t: int| 0 <= t < k ==> (#[trigger] next@[next0.len() + t])@ == p@.push(kids@[t]@),
                    decreases kids@.len() - k,
                {
                    next.push(p.child(kids[k]));
                    k = k + 1;
                }
                proof {
                    assert forall|x: Seq<u128>| key_seq(next@).contains(x) <==> exists|j: int, c: u128|
                        0 <= j < i + 1 && #[trigger] self.children(level@[j]@).contains(c) && x == #[trigger] level@[j]@.push(c) by {
                        if key_seq(next@).contains(x) {
                            let t = choose|t: int| 0 <= t < key_seq(next@).len() && key_seq(next@)[t] == x;
                            if t < next0.len() {
                                assert(key_seq(next0)[t] == x);
                                assert(key_seq(next0).contains(x));
                            } else {
                                let u = t - next0.len();
                                assert(next@[next0.len() + u]@ == p@.push(kids@[u]@));
                                assert(key_seq(kids@)[u] == kids@[u]@);
                                assert(self.children(level@[i as int]@).contains(kids@[u]@));
                                assert(x == level@[i as int]@.push(kids@[u]@));
                            }
                        }
                        if exists|j: int, c: u128|
                            0 <= j < i + 1 && #[trigger] self.children(level@[j]@).contains(c) && x == #[trigger] level@[j]@.push(c) {
                            let (j, c) = choose|j: int, c: u128|
                                0 <= j < i + 1 && #[trigger] self.children(level@[j]@).contains(c) && x == #[trigger] level@[j]@.push(c);
                            if j < i {
                                assert(key_seq(next0).contains(x));
                                let t = choose|t: int| 0 <= t < key_seq(next0).len() && key_seq(next0)[t] == x;
                                assert(key_seq(next@)[t] == x);
                            } else {
                                let u = choose|u: int| 0 <= u < key_seq(kids@).len() && key_seq(kids@)[u] == c;
                                assert(next@[next0.len() + u]@ == x);
                                assert(key_seq(next@)[next0.len() + u] == x);
                            }
                        }
                    }
                }
                i = i + 1;
            }
            proof {
                assert forall|x: Seq<u128>| key_seq(next@).contains(x) <==> (self.descends(rt, x) && x.len() == depth + 1) by {
                    if key_seq(next@).contains(x) {
                        let (j, c) = choose|j: int, c: u128|
                            0 <= j < level@.len() && #[trigger] self.children(level@[j]@).contains(c) && x == #[trigger] level@[j]@.push(c);
                        let y = level@[j]@;
                        assert(key_seq(level@)[j] == y);
                        self.lemma_descends_step(rt, y, c);
                    }
                    if self.descends(rt, x) && x.len() == depth + 1 {
                        let y = x.subrange(0, depth);
                        let c = x[depth];
                        assert(x =~= y.push(c));
                        self.lemma_descends_prefix(rt, x, depth);
                        self.lemma_descends_step(rt, y, c);
                        assert(key_seq(level@).contains(y));
                        let j = choose|j: int| 0 <= j < key_seq(level@).len() && key_seq(level@)[j] == y;
                        assert(level@[j]@ == y);
                        assert(self.children(level@[j]@).contains(c) && x == level@[j]@.push(c));
                    }
                }
                assert(key_seq(all@).to_set() =~= Set::new(|q: Seq<u128>| self.descends(rt, q) && q.len() < depth + 1)) by {
                    assert forall|q: Seq<u128>| key_seq(all@).to_set().contains(q) <==> (self.descends(rt, q) && q.len() < depth + 1) by {
                        if key_seq(all@).to_set().contains(q) {
                            let t = choose|t: int| 0 <= t < key_seq(all@).len() && key_seq(all@)[t] == q;
                            if t < all0.len() {
                                assert(key_seq(all0)[t] == q);
                                assert(key_seq(all0).to_set().contains(q));
                            } else {
                                let u = t - all0.len();
                                assert(all@[all0.len() + u]@ == level@[u]@);
                                assert(key_seq(level@)[u] == q);
                            }
                        }
                        if self.descends(rt, q) && q.len() < depth + 1 {
                            if q.len() < depth {
                                assert(key_seq(all0).to_set().contains(q));
                                let t = choose|t: int| 0 <= t < key_seq(all0).len() && key_seq(all0)[t] == q;
                                assert(key_seq(all@)[t] == q);
                            } else {
                                assert(key_seq(level@).contains(q));
                                let u = choose|u: int| 0 <= u < key_seq(level@).len() && key_seq(level@)[u] == q;
                                assert(all@[all0.len() + u]@ == level@[u]@);
                                assert(key_seq(all@)[all0.len() + u] == q);
                            }
                        }
                    }
                }
                if depth == rt.len() {
                    assert(all@[all0.len() + 0int]@ == level@[0int]@);
                    assert(all0.len() == 0);
                } else {
                    assert(all@[0] == all0[0]);
                }
            }
            level = next;
            proof {
                depth = depth + 1;
            }
        }
        proof {
            assert(key_seq(all@).to_set() =~= Set::new(|q: Seq<u128>| self.descends(rt, q))) by {
                assert forall|q: Seq<u128>| self.descends(rt, q) implies q.len() < depth by {
                    if q.len() >= depth {
                        self.lemma_descends_prefix(rt, q, depth);
                        assert(key_seq(level@).contains(q.subrange(0, depth)));
                    }
                }
            }
        }
        all
    }

    /// Marks every node of the graph changed.
    pub fn mark_all_changed(&mut self)
        requires
            old(self).wf(),
        ensures
            final(self).wf(),
            final(self).changed() == old(self).changed() + Set::new(
                |p: Seq<u128>| old(self).node_map().dom().contains(p) && old(self).descends(Seq::<u128>::empty(), p),
            ),
            final(self).node_map() == old(self).node_map(),
            final(self).edge_map() == old(self).edge_map(),
            final(self).same_edge_indexes(&*old(self)),
            final(self).same_slots(&*old(self)),
            final(self).same_children(&*old(self)),
            final(self).generation() == old(self).generation(),
    {
        let root = NodePath::root();
        self.mark_all_changed_at(&root);
    }

    /// Direct children recorded under `path`.
    pub fn path_index_children_of(&self, path: &NodePath) -> (r: Vec<NodeId>)
        requires
            self.wf(),
        ensures
            key_seq(r@) == self.children(path@),
    {
        self.path_index.children_of(path)
    }
}

} // verus!
