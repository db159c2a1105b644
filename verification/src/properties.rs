//! Properties that relate several operations of the graph: what one call
//! undoes of another, and what a pass of the executor leaves for the next.

use vstd::prelude::*;
use vstd::std_specs::cmp::PartialEqSpec;
use crate::execution::{edge_source, flatten_levels, is_interface};
use crate::graph::{slot_dropped, NodeGraph};
use crate::data_type::{DataType, ListElem};
use crate::error::{message_text, ErrorTarget, KindView};
use crate::ids::{EdgeId, NodeId};
use crate::meta::SlotDef;
use crate::node_state::{advanced, without, Edge, EdgeShape, NodeState, NodeStates};
use crate::registry::FactoryRegistry;
use crate::planning::{feeds, is_downstream_closure, is_layering};
use crate::resolve::{edge_origins, walk_origin, Origin};

verus! {

broadcast use {vstd::seq_lib::group_seq_properties, vstd::set_lib::group_set_properties};

proof fn lemma_without_push(s: Seq<u128>, x: u128)
    ensures
        without(s.push(x), x) == without(s, x),
{
    assert(s.push(x).drop_last() =~= s);
}

proof fn lemma_without_absent(s: Seq<u128>, x: u128)
    requires
        !s.contains(x),
    ensures
        without(s, x) == s,
    decreases s.len(),
{
    if s.len() > 0 {
        assert(!s.drop_last().contains(x)) by {
            if s.drop_last().contains(x) {
                let i = choose|i: int| 0 <= i < s.drop_last().len() && s.drop_last()[i] == x;
                assert(s[i] == x);
            }
        }
        lemma_without_absent(s.drop_last(), x);
        assert(s.last() != x);
        assert(s.drop_last().push(s.last()) =~= s);
    }
}

/// Removing an edge right after storing it under an id the edge table did
/// not hold gives back the edge table and every connection list; the nodes
/// and slots are untouched throughout.
pub proof fn lemma_remove_edge_undoes_add_edge<D, V>(
    before: &NodeStates<D, V>,
    added: &NodeStates<D, V>,
    after: &NodeStates<D, V>,
    id: u128,
    edge: Edge,
)
    requires
        before.wf(),
        !before.edge_map().dom().contains(id),
        added.edge_added(before, id, edge),
        after.edge_removed(added, id),
    ensures
        after.edge_map() == before.edge_map(),
        forall|s: u128| #[trigger] after.input_edges(s) == before.input_edges(s),
        forall|s: u128| #[trigger] after.output_edges(s) == before.output_edges(s),
        forall|p: Seq<u128>| #[trigger] after.outgoing(p) == before.outgoing(p),
        forall|p: Seq<u128>| #[trigger] after.incoming(p) == before.incoming(p),
        after.node_map() == before.node_map(),
        after.same_slots(before),
        after.same_children(before),
{
    before.lemma_wf_lists();
    assert(added.edge_map()[id] == edge);
    assert(after.edge_map() =~= before.edge_map());
    assert forall|s: u128| #[trigger] after.input_edges(s) == before.input_edges(s) by {
        assert(!before.input_edges(s).contains(id));
        lemma_without_absent(before.input_edges(s), id);
        if s == edge.to_input_slot_id@ {
            lemma_without_push(before.input_edges(s), id);
        }
    }
    assert forall|s: u128| #[trigger] after.output_edges(s) == before.output_edges(s) by {
        assert(!before.output_edges(s).contains(id));
        lemma_without_absent(before.output_edges(s), id);
        if s == edge.from_output_slot_id@ {
            lemma_without_push(before.output_edges(s), id);
        }
    }
    assert forall|p: Seq<u128>| #[trigger] after.outgoing(p) == before.outgoing(p) by {
        assert(!before.outgoing(p).contains(id));
        lemma_without_absent(before.outgoing(p), id);
        if p == edge.from_node@ {
            lemma_without_push(before.outgoing(p), id);
        }
    }
    assert forall|p: Seq<u128>| #[trigger] after.incoming(p) == before.incoming(p) by {
        assert(!before.incoming(p).contains(id));
        lemma_without_absent(before.incoming(p), id);
        if p == edge.to_node@ {
            lemma_without_push(before.incoming(p), id);
        }
    }
}

/// Placing a node on a path that holds no slots gives it exactly the slots
/// of its definitions, in their order, each built from its definition; the
/// node record is the one given and the path is marked changed.
pub proof fn lemma_add_node_gives_defined_slots<D, V>(
    before: &NodeStates<D, V>,
    after: &NodeStates<D, V>,
    path: Seq<u128>,
    st: NodeState<D>,
    input_defs: Seq<SlotDef>,
    output_defs: Seq<SlotDef>,
)
    requires
        before.inputs(path).len() == 0,
        before.outputs(path).len() == 0,
        after.node_added(before, path, st, input_defs, output_defs),
    ensures
        after.inputs(path).len() == input_defs.len(),
        after.outputs(path).len() == output_defs.len(),
        forall|i: int|
            0 <= i < input_defs.len() ==> NodeStates::<D, V>::input_matches_def(
                #[trigger] after.inputs(path)[i],
                input_defs[i],
            ),
        forall|i: int|
            0 <= i < output_defs.len() ==> NodeStates::<D, V>::output_matches_def(
                #[trigger] after.outputs(path)[i],
                output_defs[i],
            ),
        after.node_map().dom().contains(path),
        after.node_map()[path] == st,
        after.changed().contains(path),
{
}

/// Disconnecting the edge that a connection just made gives back the
/// graph's edge table and every connection list.
pub proof fn lemma_disconnect_undoes_connect<D, V>(
    before: &NodeGraph<D, V>,
    connected: &NodeGraph<D, V>,
    after: &NodeGraph<D, V>,
    shape: EdgeShape,
    id: EdgeId,
)
    requires
        before.wf(),
        before.added_as_edge(connected, shape, Ok(id)),
        after.st().edge_removed(&connected.st(), id@),
    ensures
        after.st().edge_map() == before.st().edge_map(),
        forall|s: u128| #[trigger] after.st().input_edges(s) == before.st().input_edges(s),
        forall|s: u128| #[trigger] after.st().output_edges(s) == before.st().output_edges(s),
        forall|p: Seq<u128>| #[trigger] after.st().outgoing(p) == before.st().outgoing(p),
        forall|p: Seq<u128>| #[trigger] after.st().incoming(p) == before.st().incoming(p),
        after.st().node_map() == before.st().node_map(),
        after.st().same_slots(&before.st()),
{
    before.lemma_wf_states();
    let w = choose|w: EdgeId| #[trigger] before.added_as_edge_with(connected, shape, w, Ok(id));
    assert(w == id);
    assert(!before.st().edge_map().dom().contains(id@));
    let e = connected.st().edge_map()[id@];
    lemma_remove_edge_undoes_add_edge(&before.st(), &connected.st(), &after.st(), id@, e);
}

/// Taking the changed set and marking the taken paths changed again gives
/// back the changed set.
pub proof fn lemma_restore_undoes_drain<D, V>(
    before: &NodeStates<D, V>,
    drained: &NodeStates<D, V>,
    after: &NodeStates<D, V>,
    taken: Seq<Seq<u128>>,
)
    requires
        taken.to_set() == before.changed(),
        drained.changed() == Set::<Seq<u128>>::empty(),
        after.changed() == drained.changed() + taken.to_set(),
    ensures
        after.changed() == before.changed(),
{
    assert(after.changed() =~= before.changed());
}

/// A node that failed in one pass is planned again in the next: once the
/// failed paths are marked changed, every plan built from that changed
/// set holds them among its dirty nodes.
pub proof fn lemma_failed_nodes_rerun<D, V>(
    before: &NodeGraph<D, V>,
    after: &NodeGraph<D, V>,
    failed: Seq<Seq<u128>>,
    dirty: Set<Seq<u128>>,
)
    requires
        after.st().changed() == before.st().changed() + failed.to_set(),
        is_downstream_closure(&after.st(), after.st().changed(), dirty),
    ensures
        forall|p: Seq<u128>| #[trigger] failed.contains(p) ==> dirty.contains(p),
{
    assert forall|p: Seq<u128>| #[trigger] failed.contains(p) implies dirty.contains(p) by {
        assert(failed.to_set().contains(p));
        assert(after.st().changed().contains(p));
    }
}

/// Closing a downstream closure again changes nothing: the dirty set of a
/// plan is already closed under the edges.
pub proof fn lemma_closure_idempotent<D, V>(
    ns: &NodeStates<D, V>,
    seeds: Set<Seq<u128>>,
    once: Set<Seq<u128>>,
    twice: Set<Seq<u128>>,
)
    requires
        is_downstream_closure(ns, seeds, once),
        is_downstream_closure(ns, once, twice),
    ensures
        twice == once,
{
    assert(twice.subset_of(once));
    assert(twice =~= once);
}

/// Removing an input port of a SubGraph and putting one back at the same
/// index with the removed port's label and type gives back the port
/// layout: every other slot on the input proxy's two sides and on the
/// SubGraph's external inputs is the one that was there, and the slots at
/// the index carry the label and type again.
pub proof fn lemma_input_port_reinsert_restores_layout<D, V>(
    before: &NodeGraph<D, V>,
    removed: &NodeGraph<D, V>,
    after: &NodeGraph<D, V>,
    node_id: NodeId,
    index: usize,
    label: &'static str,
    data_type: crate::data_type::DataType,
)
    requires
        before.subgraph_map().dom().contains(seq![node_id@]),
        ({
            let sg = seq![node_id@];
            let inp = sg.push(before.subgraph_map()[sg].input_proxy_id@);
            &&& index < before.st().inputs(inp).len()
            &&& index < before.st().outputs(inp).len()
            &&& index < before.st().inputs(sg).len()
            &&& before.st().inputs(inp)[index as int].label == label
            &&& before.st().inputs(inp)[index as int].data_type == data_type
        }),
        before.input_port_removal(removed, node_id, index, Ok(())),
        removed.input_port_inserted(after, node_id, index, label, data_type, Ok(())),
    ensures
        ({
            let sg = seq![node_id@];
            let inp = sg.push(before.subgraph_map()[sg].input_proxy_id@);
            let i = index as int;
            &&& after.st().inputs(inp).len() == before.st().inputs(inp).len()
            &&& forall|j: int| 0 <= j < after.st().inputs(inp).len() && j != i ==> #[trigger] after.st().inputs(inp)[j]
                == before.st().inputs(inp)[j]
            &&& after.st().inputs(inp)[i].label == label && after.st().inputs(inp)[i].data_type == data_type
            &&& after.st().outputs(inp).len() == before.st().outputs(inp).len()
            &&& forall|j: int| 0 <= j < after.st().outputs(inp).len() && j != i ==> #[trigger] after.st().outputs(inp)[j]
                == before.st().outputs(inp)[j]
            &&& after.st().outputs(inp)[i].label == label && after.st().outputs(inp)[i].data_type == data_type
            &&& after.st().inputs(sg).len() == before.st().inputs(sg).len()
            &&& forall|j: int| 0 <= j < after.st().inputs(sg).len() && j != i ==> #[trigger] after.st().inputs(sg)[j]
                == before.st().inputs(sg)[j]
            &&& after.st().inputs(sg)[i].label == label && after.st().inputs(sg)[i].data_type == data_type
        }),
{
    let sg = seq![node_id@];
    let inp = sg.push(before.subgraph_map()[sg].input_proxy_id@);
    let i = index as int;
    assert(removed.subgraph_map() == before.subgraph_map());
    assert(slot_dropped(removed.st().inputs(inp), before.st().inputs(inp), i));
    assert forall|j: int| 0 <= j < after.st().inputs(inp).len() && j != i implies #[trigger] after.st().inputs(inp)[j]
        == before.st().inputs(inp)[j] by {
        if j > i {
            assert(after.st().inputs(inp)[j] == removed.st().inputs(inp)[j - 1]);
        }
    }
    assert forall|j: int| 0 <= j < after.st().outputs(inp).len() && j != i implies #[trigger] after.st().outputs(inp)[j]
        == before.st().outputs(inp)[j] by {
        if j > i {
            assert(after.st().outputs(inp)[j] == removed.st().outputs(inp)[j - 1]);
        }
    }
    assert forall|j: int| 0 <= j < after.st().inputs(sg).len() && j != i implies #[trigger] after.st().inputs(sg)[j]
        == before.st().inputs(sg)[j] by {
        if j > i {
            assert(after.st().inputs(sg)[j] == removed.st().inputs(sg)[j - 1]);
        }
    }
}

proof fn lemma_concat_contains(a: Seq<Seq<u128>>, b: Seq<Seq<u128>>, p: Seq<u128>)
    ensures
        (a + b).contains(p) <==> a.contains(p) || b.contains(p),
{
    if (a + b).contains(p) {
        let i = choose|i: int| 0 <= i < (a + b).len() && (a + b)[i] == p;
        if i < a.len() {
            assert(a[i] == p);
        } else {
            assert(b[i - a.len()] == p);
        }
    }
    if a.contains(p) {
        let i = choose|i: int| 0 <= i < a.len() && a[i] == p;
        assert((a + b)[i] == p);
    }
    if b.contains(p) {
        let i = choose|i: int| 0 <= i < b.len() && b[i] == p;
        assert((a + b)[a.len() + i] == p);
    }
}

proof fn lemma_flatten_member(levels: Seq<Seq<Seq<u128>>>, p: Seq<u128>)
    ensures
        flatten_levels(levels).contains(p) <==> exists|k: int| 0 <= k < levels.len() && #[trigger] levels[k].contains(p),
    decreases levels.len(),
{
    if levels.len() > 0 {
        let init = levels.drop_last();
        lemma_flatten_member(init, p);
        lemma_concat_contains(flatten_levels(init), levels.last(), p);
        if flatten_levels(levels).contains(p) {
            if flatten_levels(init).contains(p) {
                let k = choose|k: int| 0 <= k < init.len() && #[trigger] init[k].contains(p);
                assert(levels[k] == init[k]);
            } else {
                assert(levels[levels.len() - 1].contains(p));
            }
        }
        if exists|k: int| 0 <= k < levels.len() && #[trigger] levels[k].contains(p) {
            let k = choose|k: int| 0 <= k < levels.len() && #[trigger] levels[k].contains(p);
            if k < levels.len() - 1 {
                assert(init[k] == levels[k]);
            }
        }
    }
}

proof fn lemma_flatten_no_duplicates(levels: Seq<Seq<Seq<u128>>>)
    requires
        forall|k: int| 0 <= k < levels.len() ==> (#[trigger] levels[k]).no_duplicates(),
        forall|k1: int, k2: int, p: Seq<u128>|
            0 <= k1 < levels.len() && 0 <= k2 < levels.len() && #[trigger] levels[k1].contains(p) && #[trigger] levels[k2].contains(p)
                ==> k1 == k2,
    ensures
        flatten_levels(levels).no_duplicates(),
    decreases levels.len(),
{
    if levels.len() > 0 {
        let init = levels.drop_last();
        let last = levels.last();
        assert forall|k: int| 0 <= k < init.len() implies (#[trigger] init[k]).no_duplicates() by {
            assert(init[k] == levels[k]);
        }
        assert forall|k1: int, k2: int, p: Seq<u128>|
            0 <= k1 < init.len() && 0 <= k2 < init.len() && #[trigger] init[k1].contains(p) && #[trigger] init[k2].contains(p)
                implies k1 == k2 by {
            assert(init[k1] == levels[k1] && init[k2] == levels[k2]);
        }
        lemma_flatten_no_duplicates(init);
        let f = flatten_levels(init);
        assert(levels[levels.len() - 1] == last);
        assert forall|i: int, j: int| 0 <= i < (f + last).len() && 0 <= j < (f + last).len() && i != j
            implies (f + last)[i] != (f + last)[j] by {
            if i < f.len() && j < f.len() {
                assert(f[i] != f[j]);
            } else if i >= f.len() && j >= f.len() {
                assert(last[i - f.len()] != last[j - f.len()]);
            } else {
                let (x, y) = if i < f.len() { (i, j) } else { (j, i) };
                let p = f[x];
                if p == last[y - f.len()] {
                    assert(f.contains(p));
                    lemma_flatten_member(init, p);
                    let k = choose|k: int| 0 <= k < init.len() && #[trigger] init[k].contains(p);
                    assert(levels[k].contains(p));
                    assert(last.contains(p));
                }
            }
        }
    }
}

proof fn lemma_flatten_order(levels: Seq<Seq<Seq<u128>>>, i: int, j: int, k1: int, k2: int)
    requires
        forall|a: int, b: int, p: Seq<u128>|
            0 <= a < levels.len() && 0 <= b < levels.len() && #[trigger] levels[a].contains(p) && #[trigger] levels[b].contains(p)
                ==> a == b,
        0 <= i < j < flatten_levels(levels).len(),
        0 <= k1 < levels.len(),
        0 <= k2 < levels.len(),
        levels[k1].contains(flatten_levels(levels)[i]),
        levels[k2].contains(flatten_levels(levels)[j]),
    ensures
        k1 <= k2,
    decreases levels.len(),
{
    let init = levels.drop_last();
    let last = levels.last();
    let f = flatten_levels(init);
    let n = levels.len() - 1;
    assert(levels[n] == last);
    let flat = flatten_levels(levels);
    assert(flat == f + last);
    if j < f.len() {
        let p = f[i];
        let q = f[j];
        assert(flat[i] == p && flat[j] == q);
        lemma_flatten_member(init, p);
        lemma_flatten_member(init, q);
        assert(f.contains(p));
        assert(f.contains(q));
        let a = choose|k: int| 0 <= k < init.len() && #[trigger] init[k].contains(p);
        let b = choose|k: int| 0 <= k < init.len() && #[trigger] init[k].contains(q);
        assert(init[a] == levels[a] && init[b] == levels[b]);
        assert(a == k1 && b == k2);
        assert forall|x: int, y: int, r: Seq<u128>|
            0 <= x < init.len() && 0 <= y < init.len() && #[trigger] init[x].contains(r) && #[trigger] init[y].contains(r)
                implies x == y by {
            assert(init[x] == levels[x] && init[y] == levels[y]);
        }
        lemma_flatten_order(init, i, j, a, b);
    } else {
        let q = flat[j];
        assert(q == last[j - f.len()]);
        assert(last.contains(q));
        assert(k2 == n);
    }
}

/// A plan runs each node of the dirty set exactly once, and a node only
/// after every dirty node that feeds it.
pub proof fn lemma_plan_runs_each_node_once_after_its_feeders<D, V>(
    ns: &NodeStates<D, V>,
    dirty: Set<Seq<u128>>,
    levels: Seq<Seq<Seq<u128>>>,
)
    requires
        is_layering(ns, dirty, levels),
    ensures
        flatten_levels(levels).to_set() == dirty,
        flatten_levels(levels).no_duplicates(),
        forall|i: int, j: int|
            0 <= i < flatten_levels(levels).len() && 0 <= j < flatten_levels(levels).len()
                && #[trigger] feeds(ns, flatten_levels(levels)[i], flatten_levels(levels)[j]) ==> i < j,
{
    let flat = flatten_levels(levels);
    assert forall|p: Seq<u128>| flat.to_set().contains(p) <==> dirty.contains(p) by {
        lemma_flatten_member(levels, p);
    }
    assert(flat.to_set() =~= dirty);
    lemma_flatten_no_duplicates(levels);
    assert forall|i: int, j: int|
        0 <= i < flat.len() && 0 <= j < flat.len() && #[trigger] feeds(ns, flat[i], flat[j]) implies i < j by {
        lemma_flatten_member(levels, flat[i]);
        lemma_flatten_member(levels, flat[j]);
        assert(flat.contains(flat[i]));
        assert(flat.contains(flat[j]));
        let k1 = choose|k: int| 0 <= k < levels.len() && #[trigger] levels[k].contains(flat[i]);
        let k2 = choose|k: int| 0 <= k < levels.len() && #[trigger] levels[k].contains(flat[j]);
        assert(k1 < k2);
        if j < i {
            lemma_flatten_order(levels, j, i, k2, k1);
        } else if j == i {
            assert(k1 == k2);
        }
    }
}

/// A value cached on an ordinary node's output is what an edge from that
/// output delivers to the node it enters.
pub proof fn lemma_value_flows_along_an_edge<D, V>(ns: &NodeStates<D, V>, cached: Set<u128>, y: u128)
    requires
        ns.wf(),
        ns.edge_map().dom().contains(y),
        !is_interface(ns, ns.edge_map()[y].from_node@),
        cached.contains(ns.edge_map()[y].from_output_slot_id@),
    ensures
        edge_origins(ns, cached, seq![y]) == seq![Origin::Cached(ns.edge_map()[y].from_output_slot_id@)],
{
    let sid = ns.edge_map()[y].from_output_slot_id@;
    let src = edge_source(ns, y);
    assert(!Seq::<(Seq<u128>, usize)>::empty().contains((src.0, src.1)));
    assert(walk_origin(ns, cached, src.0, src.1, sid, Seq::empty()).0 == Some(Origin::Cached(sid)));
    assert(seq![y].drop_last() =~= Seq::<u128>::empty());
    assert(seq![y].last() == y);
    assert(edge_origins(ns, cached, Seq::<u128>::empty()) == Seq::<Origin>::empty());
    assert(edge_origins(ns, cached, seq![y]) == Seq::<Origin>::empty().push(Origin::Cached(sid)));
    assert(edge_origins(ns, cached, seq![y]) =~= seq![Origin::Cached(sid)]);
}

/// A value cached on an ordinary node's output, carried by the only edge
/// into input `i` of an interface node, is what a consumer wired to that
/// interface node's output `i` reads: the edge `y` into the consumer
/// delivers that cache entry.
pub proof fn lemma_value_flows_through_interface<D, V>(
    ns: &NodeStates<D, V>,
    cached: Set<u128>,
    proxy: Seq<u128>,
    i: usize,
    x: u128,
    y: u128,
)
    requires
        ns.wf(),
        is_interface(ns, proxy),
        i < ns.inputs(proxy).len(),
        ns.input_edges(ns.inputs(proxy)[i as int].id@) == seq![x],
        ns.edge_map().dom().contains(x),
        !is_interface(ns, ns.edge_map()[x].from_node@),
        cached.contains(ns.edge_map()[x].from_output_slot_id@),
        ns.edge_map().dom().contains(y),
        edge_source(ns, y) == (proxy, i),
    ensures
        edge_origins(ns, cached, seq![y]) == seq![Origin::Cached(ns.edge_map()[x].from_output_slot_id@)],
{
    let sid = ns.edge_map()[x].from_output_slot_id@;
    let src = edge_source(ns, x);
    let seen = Seq::<(Seq<u128>, usize)>::empty().push((proxy, i));
    assert(!seen.contains((src.0, src.1))) by {
        if seen.contains((src.0, src.1)) {
            assert(seen[0] == (src.0, src.1));
        }
    }
    assert(walk_origin(ns, cached, src.0, src.1, sid, seen).0 == Some(Origin::Cached(sid)));
    let es = ns.input_edges(ns.inputs(proxy)[i as int].id@);
    assert(es[0] == x);
    let yid = ns.edge_map()[y].from_output_slot_id@;
    assert(!Seq::<(Seq<u128>, usize)>::empty().contains((proxy, i)));
    assert(walk_origin(ns, cached, proxy, i, yid, Seq::empty()).0 == Some(Origin::Cached(sid)));
    assert(seq![y].drop_last() =~= Seq::<u128>::empty());
    assert(seq![y].last() == y);
    assert(edge_origins(ns, cached, Seq::<u128>::empty()) == Seq::<Origin>::empty());
    assert(edge_origins(ns, cached, seq![y]) == Seq::<Origin>::empty().push(Origin::Cached(sid)));
    assert(edge_origins(ns, cached, seq![y]) =~= seq![Origin::Cached(sid)]);
}

/// An interface node with no edge into its input `i` forwards that
/// input's default: the edge `y` from its output `i` delivers it.
pub proof fn lemma_interface_forwards_its_default<D, V>(ns: &NodeStates<D, V>, cached: Set<u128>, proxy: Seq<u128>, i: usize, y: u128)
    requires
        ns.wf(),
        is_interface(ns, proxy),
        i < ns.inputs(proxy).len(),
        ns.input_edges(ns.inputs(proxy)[i as int].id@).len() == 0,
        ns.inputs(proxy)[i as int].default_value is Some,
        ns.edge_map().dom().contains(y),
        edge_source(ns, y) == (proxy, i),
    ensures
        edge_origins(ns, cached, seq![y]) == seq![Origin::Default(proxy, i)],
{
    let yid = ns.edge_map()[y].from_output_slot_id@;
    assert(!Seq::<(Seq<u128>, usize)>::empty().contains((proxy, i)));
    assert(walk_origin(ns, cached, proxy, i, yid, Seq::empty()).0 == Some(Origin::Default(proxy, i)));
    assert(seq![y].drop_last() =~= Seq::<u128>::empty());
    assert(seq![y].last() == y);
    assert(edge_origins(ns, cached, Seq::<u128>::empty()) == Seq::<Origin>::empty());
    assert(edge_origins(ns, cached, seq![y]) == Seq::<Origin>::empty().push(Origin::Default(proxy, i)));
    assert(edge_origins(ns, cached, seq![y]) =~= seq![Origin::Default(proxy, i)]);
}


/// Taking out the registration of a name that was registered as an owned
/// string and putting it back succeeds and gives back the registrations.
pub proof fn lemma_restore_undoes_unregister<E>(
    before: &FactoryRegistry<E>,
    taken: &FactoryRegistry<E>,
    after: &FactoryRegistry<E>,
    name: Seq<char>,
    out: Option<E>,
    e: E,
    r: Result<(), E>,
)
    requires
        before.entry_map().dom().contains(name),
        before.owned_names().contains(name),
        taken.unregistered(before, name, out),
        out == Some(e),
        after.restored(taken, name, e, r),
    ensures
        r is Ok,
        after.entry_map() == before.entry_map(),
        after.owned_names() == before.owned_names(),
{
    assert(after.entry_map() =~= before.entry_map());
}

/// Over any run of operations, each a shape change (nodes, slots or edges
/// added or removed), which moves the structure generation, or a data
/// write, which keeps it, the generation never goes down; and it ends above
/// where it started as soon as one shape change happened below the ceiling.
pub proof fn lemma_generation_moves_only_on_shape_changes<D, V>(graphs: Seq<NodeGraph<D, V>>, shape: Seq<bool>)
    requires
        graphs.len() == shape.len() + 1,
        forall|i: int| 0 <= i < shape.len() && #[trigger] shape[i] ==> advanced(
            graphs[i].st().generation(),
            graphs[i + 1].st().generation(),
        ),
        forall|i: int| 0 <= i < shape.len() && !#[trigger] shape[i] ==> graphs[i + 1].st().generation()
            == graphs[i].st().generation(),
    ensures
        graphs[0].st().generation() <= graphs.last().st().generation(),
        shape.contains(true) && graphs[0].st().generation() < u64::MAX ==> graphs[0].st().generation()
            < graphs.last().st().generation(),
        !shape.contains(true) ==> graphs.last().st().generation() == graphs[0].st().generation(),
    decreases shape.len(),
{
    if shape.len() > 0 {
        let n = shape.len() - 1;
        let g = graphs.drop_last();
        let sh = shape.drop_last();
        assert forall|i: int| 0 <= i < sh.len() && #[trigger] sh[i] implies advanced(
            g[i].st().generation(),
            g[i + 1].st().generation(),
        ) by {
            assert(shape[i]);
        }
        assert forall|i: int| 0 <= i < sh.len() && !#[trigger] sh[i] implies g[i + 1].st().generation()
            == g[i].st().generation() by {
            assert(!shape[i]);
        }
        lemma_generation_moves_only_on_shape_changes(g, sh);
        assert(g.last() == graphs[n]);
        if shape[n] {
            assert(advanced(graphs[n].st().generation(), graphs[n + 1].st().generation()));
        } else {
            assert(graphs[n + 1].st().generation() == graphs[n].st().generation());
        }
        if shape.contains(true) && !sh.contains(true) {
            let k = choose|k: int| 0 <= k < shape.len() && shape[k] == true;
            if k < n {
                assert(sh[k]);
            }
        }
        if sh.contains(true) {
            let k = choose|k: int| 0 <= k < sh.len() && sh[k] == true;
            assert(shape[k]);
        }
        if !shape.contains(true) {
            assert(!shape[n]);
            assert forall|k: int| 0 <= k < sh.len() implies sh[k] != true by {
                assert(shape[k] != true);
            }
        }
    }
}

/// Two slot types are the same type: a list with a list of the same
/// element kind, a domain with a domain of the same name (compared as
/// text), and any other type only with itself.
pub open spec fn carries_same(a: DataType, b: DataType) -> bool {
    match a {
        DataType::Domain(x) => b matches DataType::Domain(y) && x@ == y@,
        DataType::List(x) => b matches DataType::List(y) && x == y,
        _ => a == b,
    }
}

/// `==` on types holds exactly for the same type: the same variant, with
/// the same element kind for lists and the same name for domains.
pub proof fn lemma_type_equality_is_sameness(a: DataType, b: DataType)
    ensures
        a.eq_spec(&b) <==> carries_same(a, b),
        crate::data_type::same_type(a, b) <==> carries_same(a, b),
{
}

/// Two domain types are equal exactly when their names are the same text.
pub proof fn lemma_domain_types_equal_by_name(x: &'static str, y: &'static str)
    ensures
        DataType::Domain(x).eq_spec(&DataType::Domain(y)) <==> x@ == y@,
{
    lemma_type_equality_is_sameness(DataType::Domain(x), DataType::Domain(y));
}

/// Two list types are equal exactly when their element kinds are.
pub proof fn lemma_list_types_equal_by_element(x: ListElem, y: ListElem)
    ensures
        DataType::List(x).eq_spec(&DataType::List(y)) <==> x == y,
{
    lemma_type_equality_is_sameness(DataType::List(x), DataType::List(y));
}

/// Connecting an output to an input of another type is refused: once the
/// endpoints are routed and both nodes and slots exist, `add_edge` answers
/// the type-mismatch message, stores no edge and records the mismatch on
/// the target input port; and the type check never refuses two slots of
/// the same type.
pub proof fn lemma_add_edge_refuses_mismatched_types<D, V>(
    g: &NodeGraph<D, V>,
    next: &NodeGraph<D, V>,
    shape: EdgeShape,
    e: EdgeShape,
    r: Result<EdgeId, String>,
)
    requires
        g.added_as_edge(next, shape, r),
        g.route_target(shape) is Some,
        g.route_source(g.route_target(shape)->0) == Some(e),
        e.from_node.len() > 0,
        e.to_node.len() > 0,
        g.st().node_map().dom().contains(e.from_node),
        g.st().node_map().dom().contains(e.to_node),
        e.from_output_slot_index < g.st().outputs(e.from_node).len(),
        e.to_input_slot_index < g.st().inputs(e.to_node).len(),
    ensures
        ({
            let from_type = g.st().outputs(e.from_node)[e.from_output_slot_index as int].data_type;
            let to_type = g.st().inputs(e.to_node)[e.to_input_slot_index as int].data_type;
            let port = ErrorTarget::InputPort { node_id: NodeId(e.to_node.last()), slot_index: e.to_input_slot_index };
            &&& !carries_same(from_type, to_type) ==> {
                &&& r matches Err(m) && m@ == message_text(KindView::TypeMismatch { from_type, to_type })
                &&& next.st() == g.st()
                &&& next.error_map().dom().contains(port)
                &&& next.error_map()[port]@ == (port, KindView::TypeMismatch { from_type, to_type })
            }
            &&& carries_same(from_type, to_type) ==> !(g.edge_check(e) matches Some((_, KindView::TypeMismatch { .. })))
        }),
{
    let from_type = g.st().outputs(e.from_node)[e.from_output_slot_index as int].data_type;
    let to_type = g.st().inputs(e.to_node)[e.to_input_slot_index as int].data_type;
    lemma_type_equality_is_sameness(from_type, to_type);
    let w = choose|w: EdgeId| #[trigger] g.added_as_edge_with(next, shape, w, r);
    assert(g.added_as_edge_with(next, shape, w, r));
}

} // verus!
