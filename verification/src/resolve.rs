//! The value an edge delivers: the cached output of its source, looked
//! through interface nodes, which forward the value on their input of the
//! same index and never hold outputs of their own; what a node reads when
//! it runs, and what a pass reports once its nodes ran.

use vstd::prelude::*;
use crate::assoc::{key_seq, vec_copy_keys, AssocMap};
use crate::execution::{edge_source, is_interface, EdgeValue, ExecutionPlan, ExecutionResult};
use crate::graph::NodeGraph;
use crate::ids::{EdgeId, OutputSlotId};
use crate::node_path::NodePath;
use crate::node_state::NodeStates;

verus! {

/// Edge `x` exists and feeds input `a.1` of the interface node `a.0`.
pub open spec fn feeds_port<D, V>(ns: &NodeStates<D, V>, a: (Seq<u128>, usize), x: u128) -> bool {
    &&& is_interface(ns, a.0)
    &&& a.1 < ns.inputs(a.0).len()
    &&& ns.input_edges(ns.inputs(a.0)[a.1 as int].id@).contains(x)
    &&& ns.edge_map().dom().contains(x)
}

/// `v` is a copy of the default of input `a.1` of the interface node `a.0`.
pub open spec fn default_of<D, V: Clone>(ns: &NodeStates<D, V>, a: (Seq<u128>, usize), v: V) -> bool {
    &&& is_interface(ns, a.0)
    &&& a.1 < ns.inputs(a.0).len()
    &&& ns.inputs(a.0)[a.1 as int].default_value matches Some(w) && vstd::pervasive::cloned(w, v)
}

/// The edges `xs` lead back from output `a.1` of `a.0` through interface
/// nodes, and `v` is a copy of what the last one delivers: the cached
/// output of an ordinary source, or the input default of an interface
/// source. With no edge, `v` is a copy of `a`'s own input default.
pub open spec fn delivered_by<D, V: Clone>(ns: &NodeStates<D, V>, cache: Map<u128, V>, a: (Seq<u128>, usize), xs: Seq<u128>, v: V) -> bool {
    &&& xs.len() > 0 ==> feeds_port(ns, a, xs[0])
    &&& forall|i: int| 0 <= i < xs.len() - 1 ==> #[trigger] feeds_port(ns, edge_source(ns, xs[i]), xs[i + 1])
    &&& if xs.len() == 0 {
        default_of(ns, a, v)
    } else {
        let s = edge_source(ns, xs.last());
        let sid = ns.edge_map()[xs.last()].from_output_slot_id@;
        ||| !is_interface(ns, s.0) && cache.dom().contains(sid) && vstd::pervasive::cloned(cache[sid], v)
        ||| default_of(ns, s, v)
    }
}

/// Where a delivered value is read from: the cache entry of an output
/// slot id, or the default of input `i` of the interface node `p`.
pub enum Origin {
    Cached(u128),
    Default(Seq<u128>, usize),
}

/// The walked output pairs, by view.
pub open spec fn pairs_view(v: Seq<(NodePath, usize)>) -> Seq<(Seq<u128>, usize)> {
    v.map_values(|e: (NodePath, usize)| (e.0@, e.1))
}

/// The walk that resolves output `idx` (slot id `sid`) of `from`, the
/// output pairs in `seen` being walked already. A pair already walked
/// gives nothing. An ordinary node gives its cache entry, if it has one.
/// An interface node is looked through: its input `idx`, edge by edge in
/// connection order, each edge's source walked in turn with the pairs
/// walked so far, until one gives something; else that input's default.
/// Returns the origin found and the pairs walked by then.
pub open spec fn walk_origin<D, V>(
    ns: &NodeStates<D, V>,
    cached: Set<u128>,
    from: Seq<u128>,
    idx: usize,
    sid: u128,
    seen: Seq<(Seq<u128>, usize)>,
) -> (Option<Origin>, Seq<(Seq<u128>, usize)>)
    decreases usize::MAX - seen.len(), 0int, 0int,
{
    if seen.len() > usize::MAX || seen.contains((from, idx)) {
        (None, seen)
    } else if !is_interface(ns, from) {
        (
            if cached.contains(sid) { Some(Origin::Cached(sid)) } else { None },
            if seen.len() < usize::MAX { seen.push((from, idx)) } else { seen },
        )
    } else if seen.len() == usize::MAX {
        (None, seen)
    } else if idx >= ns.inputs(from).len() {
        (None, seen.push((from, idx)))
    } else {
        walk_edges_origin(ns, cached, from, idx, ns.input_edges(ns.inputs(from)[idx as int].id@), 0, seen.push((from, idx)))
    }
}

/// The walk through the edges `es` into input `idx` of the interface node
/// `from`, from the `k`-th on.
pub open spec fn walk_edges_origin<D, V>(
    ns: &NodeStates<D, V>,
    cached: Set<u128>,
    from: Seq<u128>,
    idx: usize,
    es: Seq<u128>,
    k: int,
    seen: Seq<(Seq<u128>, usize)>,
) -> (Option<Origin>, Seq<(Seq<u128>, usize)>)
    decreases usize::MAX - seen.len(), 1int, es.len() - k,
{
    if seen.len() > usize::MAX || k < 0 || k >= es.len() {
        (
            if idx < ns.inputs(from).len() && ns.inputs(from)[idx as int].default_value is Some {
                Some(Origin::Default(from, idx))
            } else {
                None
            },
            seen,
        )
    } else if !ns.edge_map().dom().contains(es[k]) {
        walk_edges_origin(ns, cached, from, idx, es, k + 1, seen)
    } else {
        let e = ns.edge_map()[es[k]];
        let (r, s2) = walk_origin(ns, cached, e.from_node@, e.from_output_slot_index, e.from_output_slot_id@, seen);
        if r is Some {
            (r, s2)
        } else if seen.len() <= s2.len() <= usize::MAX {
            walk_edges_origin(ns, cached, from, idx, es, k + 1, s2)
        } else {
            walk_edges_origin(ns, cached, from, idx, es, k + 1, seen)
        }
    }
}

/// `r` is what `o` delivers: a copy of the cache entry of a slot id, or a
/// copy of an interface input's default; nothing for no origin.
pub open spec fn delivers<D, V: Clone>(ns: &NodeStates<D, V>, cache: Map<u128, V>, o: Option<Origin>, r: Option<V>) -> bool {
    match o {
        None => r is None,
        Some(Origin::Cached(sid)) => r matches Some(v) && cache.dom().contains(sid) && vstd::pervasive::cloned(cache[sid], v),
        Some(Origin::Default(p, i)) => match r {
            Some(v) => i < ns.inputs(p).len() && (ns.inputs(p)[i as int].default_value matches Some(w)
                && vstd::pervasive::cloned(w, v)),
            None => false,
        },
    }
}

fn is_interface_at<D, V>(ns: &NodeStates<D, V>, p: &NodePath) -> (r: bool)
    requires
        ns.wf(),
    ensures
        r == is_interface(ns, p@),
{
    match ns.get(p) {
        None => false,
        Some(st) => {
            proof {
                reveal_strlit("InterfaceNode");
            }
            crate::data_type::str_eq(st.type_label, "InterfaceNode")
        },
    }
}

fn lookup<V: Clone>(cache: &AssocMap<OutputSlotId, V>, sid: &OutputSlotId) -> (r: Option<V>)
    requires
        cache.wf(),
    ensures
        match r {
            Some(v) => cache@.dom().contains(sid@) && vstd::pervasive::cloned(cache@[sid@], v),
            None => !cache@.dom().contains(sid@),
        },
{
    match cache.get(sid) {
        None => None,
        Some(v) => Some(v.clone()),
    }
}

/// The value delivered on output `idx` (slot id `sid`) of `from_node`,
/// walking the output pairs in `seen` once each: exactly what
/// `walk_origin` names. Returns the walked pairs.
fn walk_value<D, V: Clone>(
    ns: &NodeStates<D, V>,
    cache: &AssocMap<OutputSlotId, V>,
    from_node: &NodePath,
    idx: usize,
    sid: OutputSlotId,
    seen: Vec<(NodePath, usize)>,
) -> (out: (Option<V>, Vec<(NodePath, usize)>))
    requires
        ns.wf(),
        cache.wf(),
    ensures
        delivers(ns, cache@, walk_origin(ns, cache@.dom(), from_node@, idx, sid@, pairs_view(seen@)).0, out.0),
        pairs_view(out.1@) == walk_origin(ns, cache@.dom(), from_node@, idx, sid@, pairs_view(seen@)).1,
        is_interface(ns, from_node@) ==> (out.0 matches Some(v) ==> exists|xs: Seq<u128>| #[trigger]
            delivered_by(ns, cache@, (from_node@, idx), xs, v)),
        out.1@.len() >= seen@.len(),
    decreases usize::MAX - seen@.len(),
{
    let ghost cdom = cache@.dom();
    let ghost sv = pairs_view(seen@);
    let mut visited = seen;
    let mut i: usize = 0;
    while i < visited.len()
        invariant
            i <= visited@.len(),
            visited@ == seen@,
            sv == pairs_view(seen@),
            forall|j: int| 0 <= j < i ==> !((#[trigger] visited@[j]).0@ == from_node@ && visited@[j].1 == idx),
        decreases visited@.len() - i,
    {
        if visited[i].0.same_path(from_node) && visited[i].1 == idx {
            proof {
                assert(sv[i as int] == (from_node@, idx));
            }
            return (None, visited);
        }
        i = i + 1;
    }
    proof {
        if sv.contains((from_node@, idx)) {
            let j = choose|j: int| 0 <= j < sv.len() && sv[j] == (from_node@, idx);
            assert(visited@[j].0@ == from_node@ && visited@[j].1 == idx);
        }
    }
    assert(!sv.contains((from_node@, idx)));
    if !is_interface_at(ns, from_node) {
        if visited.len() < usize::MAX {
            visited.push((from_node.clone(), idx));
            assert(pairs_view(visited@) =~= sv.push((from_node@, idx)));
        }
        let r = lookup(cache, &sid);
        return (r, visited);
    }
    if visited.len() == usize::MAX {
        return (None, visited);
    }
    visited.push((from_node.clone(), idx));
    assert(pairs_view(visited@) =~= sv.push((from_node@, idx)));
    let slot = match ns.input_slot(from_node, idx) {
        None => {
            return (None, visited);
        },
        Some(s) => s,
    };
    let upstream = ns.edges_for_input(&slot.id);
    let ghost a = (from_node@, idx);
    let ghost es = key_seq(upstream@);
    let ghost target = walk_origin(ns, cdom, from_node@, idx, sid@, sv);
    assert(target == walk_edges_origin(ns, cdom, from_node@, idx, es, 0, pairs_view(visited@)));
    let mut k: usize = 0;
    while k < upstream.len()
        invariant
            ns.wf(),
            cache.wf(),
            cdom == cache@.dom(),
            is_interface(ns, from_node@),
            a == (from_node@, idx),
            idx < ns.inputs(from_node@).len(),
            *slot == ns.inputs(from_node@)[idx as int],
            es == key_seq(upstream@),
            es == ns.input_edges(slot.id@),
            k <= upstream@.len(),
            visited@.len() > seen@.len(),
            target == walk_edges_origin(ns, cdom, from_node@, idx, es, k as int, pairs_view(visited@)),
            target == walk_origin(ns, cdom, from_node@, idx, sid@, sv),
            sv == pairs_view(seen@),
        decreases upstream@.len() - k,
    {
        let x = upstream[k];
        assert(es[k as int] == x@);
        let e = match ns.get_edge(&x) {
            None => {
                k = k + 1;
                continue;
            },
            Some(e) => e,
        };
        let n = visited.len();
        assert(n == visited@.len());
        let ghost before = pairs_view(visited@);
        let (r, v) = walk_value(ns, cache, &e.from_node, e.from_output_slot_index, e.from_output_slot_id, visited);
        visited = v;
        let m = visited.len();
        proof {
            assert(m == visited@.len());
            assert(pairs_view(visited@).len() == visited@.len());
            assert(before.len() == n);
            let w = walk_origin(ns, cdom, e.from_node@, e.from_output_slot_index, e.from_output_slot_id@, before);
            assert(ns.edge_map()[es[k as int]] == *e);
            assert(delivers(ns, cache@, w.0, r));
            assert(pairs_view(visited@) == w.1);
            if r is Some {
                assert(w.0 is Some);
                assert(target == w);
            } else {
                assert(w.0 is None);
                assert(before.len() <= w.1.len() <= usize::MAX);
                assert(target == walk_edges_origin(ns, cdom, from_node@, idx, es, k + 1, w.1));
            }
        }
        match r {
            Some(val) => {
                proof {
                    assert(ns.input_edges(slot.id@)[k as int] == x@);
                    assert(feeds_port(ns, a, x@));
                    let s = edge_source(ns, x@);
                    assert(s == (e.from_node@, e.from_output_slot_index));
                    if !is_interface(ns, e.from_node@) {
                        let xs = seq![x@];
                        assert(delivered_by(ns, cache@, a, xs, val));
                    } else {
                        let ys = choose|ys: Seq<u128>| #[trigger] delivered_by(ns, cache@, s, ys, val);
                        let xs = seq![x@] + ys;
                        assert(xs[0] == x@);
                        assert forall|i: int| 0 <= i < xs.len() - 1 implies #[trigger] feeds_port(ns, edge_source(ns, xs[i]), xs[i + 1]) by {
                            if i == 0 {
                                assert(xs[1] == ys[0]);
                            } else {
                                assert(xs[i] == ys[i - 1]);
                                assert(xs[i + 1] == ys[i]);
                                assert(feeds_port(ns, edge_source(ns, ys[i - 1]), ys[i - 1 + 1]));
                            }
                        }
                        if ys.len() > 0 {
                            assert(xs.last() == ys.last());
                        } else {
                            assert(xs.last() == x@);
                        }
                        assert(delivered_by(ns, cache@, a, xs, val));
                    }
                }
                return (Some(val), visited);
            },
            None => {},
        }
        k = k + 1;
    }
    match &slot.default_value {
        None => (None, visited),
        Some(d) => {
            let v = d.clone();
            proof {
                assert(vstd::pervasive::cloned(*d, v));
                assert(default_of(ns, a, v));
                assert(delivered_by(ns, cache@, (from_node@, idx), Seq::<u128>::empty(), v));
            }
            let ghost vv = v;
            let out = (Some(v), visited);
            assert(out.0 == Some(vv));
            assert(out.0->0 == vv);
            assert(out.0 matches Some(w) ==> exists|xs: Seq<u128>| #[trigger] delivered_by(ns, cache@, (from_node@, idx), xs, w));
            out
        },
    }
}

/// The value delivered on output `idx` (slot id `sid`) of `from_node`: its
/// cached output for an ordinary node; for an interface node, the first
/// value found back along the edges into its input of the same index (in
/// connection order, through further interface nodes, each output visited
/// once), or else that input's default.
pub fn resolve_value<D, V: Clone>(
    ns: &NodeStates<D, V>,
    cache: &AssocMap<OutputSlotId, V>,
    from_node: &NodePath,
    idx: usize,
    sid: OutputSlotId,
) -> (r: Option<V>)
    requires
        ns.wf(),
        cache.wf(),
    ensures
        delivers(ns, cache@, walk_origin(ns, cache@.dom(), from_node@, idx, sid@, Seq::empty()).0, r),
        !is_interface(ns, from_node@) ==> match r {
            Some(v) => cache@.dom().contains(sid@) && vstd::pervasive::cloned(cache@[sid@], v),
            None => !cache@.dom().contains(sid@),
        },
        is_interface(ns, from_node@) ==> (r matches Some(v) ==> exists|xs: Seq<u128>| #[trigger]
            delivered_by(ns, cache@, (from_node@, idx), xs, v)),
{
    let seen: Vec<(NodePath, usize)> = Vec::new();
    assert(pairs_view(seen@) =~= Seq::<(Seq<u128>, usize)>::empty());
    let (r, _) = walk_value(ns, cache, from_node, idx, sid, seen);
    r
}

/// The origins of what the edges `es` deliver, in order: each existing
/// edge's source walked on its own; an edge that delivers nothing is left
/// out.
pub open spec fn edge_origins<D, V>(ns: &NodeStates<D, V>, cached: Set<u128>, es: Seq<u128>) -> Seq<Origin>
    decreases es.len(),
{
    if es.len() == 0 {
        Seq::empty()
    } else {
        let prev = edge_origins(ns, cached, es.drop_last());
        let x = es.last();
        if ns.edge_map().dom().contains(x) {
            let src = edge_source(ns, x);
            match walk_origin(ns, cached, src.0, src.1, ns.edge_map()[x].from_output_slot_id@, Seq::empty()).0 {
                Some(o) => prev.push(o),
                None => prev,
            }
        } else {
            prev
        }
    }
}

/// What input slot `s` receives: what its edges deliver, in connection
/// order; when none delivers, a copy of its default, if it has one.
pub open spec fn slot_inputs<D, V: Clone>(ns: &NodeStates<D, V>, cache: Map<u128, V>, s: crate::node_state::InputSlotState<V>, vals: Seq<V>) -> bool {
    let os = edge_origins(ns, cache.dom(), ns.input_edges(s.id@));
    if os.len() > 0 {
        &&& vals.len() == os.len()
        &&& forall|k: int| 0 <= k < os.len() ==> delivers(ns, cache, Some(os[k]), Some(#[trigger] vals[k]))
    } else {
        match s.default_value {
            Some(w) => vals.len() == 1 && vstd::pervasive::cloned(w, vals[0]),
            None => vals.len() == 0,
        }
    }
}

/// The values each input slot of the node at `path` receives: for each
/// slot, the values its edges deliver (looked through interface nodes), in
/// connection order, or its default when none delivers.
pub fn input_values<D, V: Clone>(ns: &NodeStates<D, V>, cache: &AssocMap<OutputSlotId, V>, path: &NodePath) -> (r: Vec<Vec<V>>)
    requires
        ns.wf(),
        cache.wf(),
    ensures
        r@.len() == ns.inputs(path@).len(),
        forall|i: int| 0 <= i < r@.len() ==> slot_inputs(ns, cache@, ns.inputs(path@)[i], #[trigger] r@[i]@),
{
    let n = ns.input_slot_count(path);
    let mut r: Vec<Vec<V>> = Vec::new();
    let mut i: usize = 0;
    while i < n
        invariant
            ns.wf(),
            cache.wf(),
            n == ns.inputs(path@).len(),
            i <= n,
            r@.len() == i,
            forall|j: int| 0 <= j < i ==> slot_inputs(ns, cache@, ns.inputs(path@)[j], #[trigger] r@[j]@),
        decreases n - i,
    {
        let slot = match ns.input_slot(path, i) {
            Some(s) => s,
            None => {
                return r;
            },
        };
        let edges = ns.edges_for_input(&slot.id);
        let ghost es = key_seq(edges@);
        let ghost cdom = cache@.dom();
        let mut values: Vec<V> = Vec::new();
        let mut k: usize = 0;
        proof {
            assert(es.subrange(0, 0) =~= Seq::<u128>::empty());
        }
        while k < edges.len()
            invariant
                ns.wf(),
                cache.wf(),
                cdom == cache@.dom(),
                es == key_seq(edges@),
                es == ns.input_edges(slot.id@),
                k <= edges@.len(),
                values@.len() == edge_origins(ns, cdom, es.subrange(0, k as int)).len(),
                forall|t: int| 0 <= t < values@.len() ==> delivers(ns, cache@,
                    Some(edge_origins(ns, cdom, es.subrange(0, k as int))[t]), Some(#[trigger] values@[t])),
            decreases edges@.len() - k,
        {
            let ghost pre = values@;
            let ghost os = edge_origins(ns, cdom, es.subrange(0, k as int));
            proof {
                assert(es.subrange(0, k + 1).drop_last() =~= es.subrange(0, k as int));
                assert(es.subrange(0, k + 1).last() == es[k as int]);
                assert(es[k as int] == edges@[k as int]@);
            }
            match ns.get_edge(&edges[k]) {
                None => {},
                Some(e) => {
                    let got = resolve_value(ns, cache, &e.from_node, e.from_output_slot_index, e.from_output_slot_id);
                    proof {
                        assert(edge_source(ns, es[k as int]) == (e.from_node@, e.from_output_slot_index));
                    }
                    match got {
                        None => {},
                        Some(v) => {
                            values.push(v);
                        },
                    }
                },
            }
            proof {
                let os2 = edge_origins(ns, cdom, es.subrange(0, k + 1));
                assert forall|t: int| 0 <= t < values@.len() implies delivers(ns, cache@, Some(os2[t]), Some(#[trigger] values@[t])) by {
                    if t < pre.len() {
                        assert(values@[t] == pre[t]);
                        assert(os2[t] == os[t]);
                    }
                }
            }
            k = k + 1;
        }
        proof {
            assert(es.subrange(0, es.len() as int) =~= es);
        }
        if values.len() == 0 {
            match &slot.default_value {
                None => {},
                Some(d) => {
                    let v = d.clone();
                    values.push(v);
                },
            }
        }
        r.push(values);
        i = i + 1;
    }
    r
}

/// The cached value of each output slot of the node at `path`, as copies,
/// `None` for a slot with nothing cached.
pub fn output_values<D, V: Clone>(ns: &NodeStates<D, V>, cache: &AssocMap<OutputSlotId, V>, path: &NodePath) -> (r: Vec<Option<V>>)
    requires
        ns.wf(),
        cache.wf(),
    ensures
        r@.len() == ns.outputs(path@).len(),
        forall|i: int| 0 <= i < r@.len() ==> match #[trigger] r@[i] {
            Some(v) => cache@.dom().contains(ns.outputs(path@)[i].id@) && vstd::pervasive::cloned(cache@[ns.outputs(path@)[i].id@], v),
            None => !cache@.dom().contains(ns.outputs(path@)[i].id@),
        },
{
    let n = ns.output_slot_count(path);
    let mut r: Vec<Option<V>> = Vec::new();
    let mut i: usize = 0;
    while i < n
        invariant
            ns.wf(),
            cache.wf(),
            n == ns.outputs(path@).len(),
            i <= n,
            r@.len() == i,
            forall|j: int| 0 <= j < i ==> match #[trigger] r@[j] {
                Some(v) => cache@.dom().contains(ns.outputs(path@)[j].id@) && vstd::pervasive::cloned(cache@[ns.outputs(path@)[j].id@], v),
                None => !cache@.dom().contains(ns.outputs(path@)[j].id@),
            },
        decreases n - i,
    {
        let sid = match ns.output_slot(path, i) {
            Some(s) => s.id,
            None => {
                return r;
            },
        };
        let v = lookup(cache, &sid);
        r.push(v);
        i = i + 1;
    }
    r
}

/// What input `s` of a node with incoming edges `es` shows after a pass:
/// the origin found by the last edge into input `s` whose walk finds one.
pub open spec fn sink_origin<D, V>(ns: &NodeStates<D, V>, cached: Set<u128>, s: int, es: Seq<u128>) -> Option<Origin>
    decreases es.len(),
{
    if es.len() == 0 {
        None
    } else {
        let x = es.last();
        let here = if ns.edge_map().dom().contains(x) && ns.edge_map()[x].to_input_slot_index == s {
            walk_origin(ns, cached, edge_source(ns, x).0, edge_source(ns, x).1, ns.edge_map()[x].from_output_slot_id@, Seq::empty()).0
        } else {
            None
        };
        if here is Some {
            here
        } else {
            sink_origin(ns, cached, s, es.drop_last())
        }
    }
}

/// `o` is what a pass reports for the node at `p`: copies of its cached
/// outputs, slot by slot; for a node without outputs, what each of its
/// inputs shows.
pub open spec fn reported_outputs<D, V: Clone>(ns: &NodeStates<D, V>, cache: Map<u128, V>, p: Seq<u128>, o: Seq<Option<V>>) -> bool {
    if ns.outputs(p).len() > 0 {
        &&& o.len() == ns.outputs(p).len()
        &&& forall|i: int| 0 <= i < o.len() ==> delivers(
            ns,
            cache,
            if cache.dom().contains(ns.outputs(p)[i].id@) { Some(Origin::Cached(ns.outputs(p)[i].id@)) } else { None },
            #[trigger] o[i],
        )
    } else {
        &&& o.len() == ns.inputs(p).len()
        &&& forall|i: int| 0 <= i < o.len() ==> delivers(ns, cache, sink_origin(ns, cache.dom(), i, ns.incoming(p)), #[trigger] o[i])
    }
}

/// `ev` is what a pass reports on edge `x`: its endpoints' local ids and
/// slot indices, and the value its source delivers.
pub open spec fn reported_edge<D, V: Clone>(ns: &NodeStates<D, V>, cache: Map<u128, V>, x: u128, ev: EdgeValue<V>) -> bool {
    let e = ns.edge_map()[x];
    &&& ns.edge_map().dom().contains(x)
    &&& e.from_node@.len() > 0
    &&& e.to_node@.len() > 0
    &&& ev.from_node@ == e.from_node@.last()
    &&& ev.to_node@ == e.to_node@.last()
    &&& ev.from_slot == e.from_output_slot_index
    &&& ev.to_slot == e.to_input_slot_index
    &&& delivers(ns, cache, walk_origin(ns, cache.dom(), e.from_node@, e.from_output_slot_index, e.from_output_slot_id@, Seq::empty()).0, ev.data)
}

proof fn lemma_sink_origin_step<D, V>(ns: &NodeStates<D, V>, cached: Set<u128>, s: int, es: Seq<u128>, k: int)
    requires
        0 <= k < es.len(),
    ensures
        es.subrange(0, k + 1).drop_last() == es.subrange(0, k),
        es.subrange(0, k + 1).last() == es[k],
{
    assert(es.subrange(0, k + 1).drop_last() =~= es.subrange(0, k));
}

/// What each input of the node at `path` shows: the value delivered by
/// the last of its incoming edges into that input that delivers one.
fn sink_inputs<D, V: Clone>(ns: &NodeStates<D, V>, cache: &AssocMap<OutputSlotId, V>, path: &NodePath) -> (r: Vec<Option<V>>)
    requires
        ns.wf(),
        cache.wf(),
    ensures
        r@.len() == ns.inputs(path@).len(),
        forall|i: int| 0 <= i < r@.len() ==> delivers(ns, cache@, sink_origin(ns, cache@.dom(), i, ns.incoming(path@)), #[trigger] r@[i]),
{
    let n = ns.input_slot_count(path);
    let ghost cdom = cache@.dom();
    let inc = ns.incoming_edges_at(path);
    let ghost es = key_seq(inc@);
    let mut r: Vec<Option<V>> = Vec::new();
    let mut i: usize = 0;
    while i < n
        invariant
            i <= n,
            r@.len() == i,
            forall|t: int| 0 <= t < i ==> (#[trigger] r@[t]) is None,
        decreases n - i,
    {
        r.push(None);
        i = i + 1;
    }
    proof {
        assert forall|t: int| 0 <= t < n implies delivers(ns, cache@, sink_origin(ns, cdom, t, es.subrange(0, 0)), #[trigger] r@[t]) by {
            assert(es.subrange(0, 0).len() == 0);
        }
    }
    let mut k: usize = 0;
    while k < inc.len()
        invariant
            ns.wf(),
            cache.wf(),
            cdom == cache@.dom(),
            n == ns.inputs(path@).len(),
            es == key_seq(inc@),
            k <= inc@.len(),
            r@.len() == n,
            forall|t: int| 0 <= t < n ==> delivers(ns, cache@, sink_origin(ns, cdom, t, es.subrange(0, k as int)), #[trigger] r@[t]),
        decreases inc@.len() - k,
    {
        proof {
            assert forall|t: int| 0 <= t < n implies #[trigger] sink_origin(ns, cdom, t, es.subrange(0, k + 1)) == ({
                let x = es[k as int];
                let here = if ns.edge_map().dom().contains(x) && ns.edge_map()[x].to_input_slot_index == t {
                    walk_origin(ns, cdom, edge_source(ns, x).0, edge_source(ns, x).1, ns.edge_map()[x].from_output_slot_id@, Seq::empty()).0
                } else {
                    None
                };
                if here is Some { here } else { sink_origin(ns, cdom, t, es.subrange(0, k as int)) }
            }) by {
                lemma_sink_origin_step(ns, cdom, t, es, k as int);
            }
            assert(es[k as int] == inc@[k as int]@);
        }
        let ghost pre = r@;
        match ns.get_edge(&inc[k]) {
            None => {},
            Some(e) => {
                if e.to_input_slot_index < n {
                    let got = resolve_value(ns, cache, &e.from_node, e.from_output_slot_index, e.from_output_slot_id);
                    proof {
                        assert(edge_source(ns, es[k as int]) == (e.from_node@, e.from_output_slot_index));
                    }
                    match got {
                        None => {},
                        Some(v) => {
                            r.set(e.to_input_slot_index, Some(v));
                        },
                    }
                }
            },
        }
        proof {
            assert forall|t: int| 0 <= t < n implies delivers(ns, cache@, sink_origin(ns, cdom, t, es.subrange(0, k + 1)), #[trigger] r@[t]) by {
                assert(delivers(ns, cache@, sink_origin(ns, cdom, t, es.subrange(0, k as int)), pre[t]));
            }
        }
        k = k + 1;
    }
    proof {
        assert(es.subrange(0, es.len() as int) =~= es);
    }
    r
}

impl<D, V: Clone> NodeGraph<D, V> {
    /// What a pass reports, read from `cache` after the nodes `executed`
    /// ran: each executed node in order with its reported outputs, the
    /// value on every edge leaving one of them, the execution errors, and
    /// the removal record of `plan`.
    pub fn collect_outputs(&self, cache: &AssocMap<OutputSlotId, V>, plan: &ExecutionPlan, executed: &Vec<NodePath>) -> (r: ExecutionResult<V>)
        requires
            self.wf(),
            cache.wf(),
        ensures
            r.node_outputs@.len() == executed@.len(),
            forall|i: int| 0 <= i < executed@.len() ==> {
                &&& (#[trigger] r.node_outputs@[i]).0@ == executed@[i]@
                &&& reported_outputs(&self.st(), cache@, executed@[i]@, r.node_outputs@[i].1@)
            },
            forall|t: int| 0 <= t < r.edge_values@.len() ==> {
                let (x, ev) = #[trigger] r.edge_values@[t];
                &&& reported_edge(&self.st(), cache@, x@, ev)
                &&& exists|i: int| 0 <= i < executed@.len() && self.st().outgoing(executed@[i]@).contains(x@)
            },
            forall|i: int, j: int| 0 <= i < executed@.len() && 0 <= j < self.st().outgoing(executed@[i]@).len() ==> {
                let x = #[trigger] self.st().outgoing(executed@[i]@)[j];
                self.st().edge_map().dom().contains(x) && self.st().edge_map()[x].from_node@.len() > 0
                    && self.st().edge_map()[x].to_node@.len() > 0 ==> exists|t: int| 0 <= t < r.edge_values@.len()
                    && (#[trigger] r.edge_values@[t]).0@ == x
            },
            self.lists_execution_errors(r.errors@),
            key_seq(r.removed_nodes@) == key_seq(plan.removed_nodes@),
    {
        let ns = self.node_states();
        let mut node_outputs: Vec<(NodePath, Vec<Option<V>>)> = Vec::new();
        let mut i: usize = 0;
        while i < executed.len()
            invariant
                ns.wf(),
                cache.wf(),
                *ns == self.st(),
                i <= executed@.len(),
                node_outputs@.len() == i,
                forall|j: int| 0 <= j < i ==> {
                    &&& (#[trigger] node_outputs@[j]).0@ == executed@[j]@
                    &&& reported_outputs(ns, cache@, executed@[j]@, node_outputs@[j].1@)
                },
            decreases executed@.len() - i,
        {
            let path = &executed[i];
            let outs = output_values(ns, cache, path);
            let shown = if outs.len() > 0 {
                proof {
                    assert forall|t: int| 0 <= t < outs@.len() implies delivers(
                        ns,
                        cache@,
                        if cache@.dom().contains(ns.outputs(path@)[t].id@) { Some(Origin::Cached(ns.outputs(path@)[t].id@)) } else { None },
                        #[trigger] outs@[t],
                    ) by {}
                }
                outs
            } else {
                sink_inputs(ns, cache, path)
            };
            node_outputs.push((path.clone(), shown));
            i = i + 1;
        }
        let mut edge_values: Vec<(EdgeId, EdgeValue<V>)> = Vec::new();
        let mut i: usize = 0;
        while i < executed.len()
            invariant
                ns.wf(),
                cache.wf(),
                *ns == self.st(),
                i <= executed@.len(),
                forall|t: int| 0 <= t < edge_values@.len() ==> {
                    let (x, ev) = #[trigger] edge_values@[t];
                    &&& reported_edge(ns, cache@, x@, ev)
                    &&& exists|ii: int| 0 <= ii < executed@.len() && ns.outgoing(executed@[ii]@).contains(x@)
                },
                forall|ii: int, j: int| 0 <= ii < i && 0 <= j < ns.outgoing(executed@[ii]@).len() ==> {
                    let x = #[trigger] ns.outgoing(executed@[ii]@)[j];
                    ns.edge_map().dom().contains(x) && ns.edge_map()[x].from_node@.len() > 0
                        && ns.edge_map()[x].to_node@.len() > 0 ==> exists|t: int| 0 <= t < edge_values@.len()
                        && (#[trigger] edge_values@[t]).0@ == x
                },
            decreases executed@.len() - i,
        {
            let outgoing = ns.outgoing_edges_at(&executed[i]);
            let ghost os = key_seq(outgoing@);
            let mut k: usize = 0;
            while k < outgoing.len()
                invariant
                    ns.wf(),
                    cache.wf(),
                    *ns == self.st(),
                    i < executed@.len(),
                    os == key_seq(outgoing@),
                    os == ns.outgoing(executed@[i as int]@),
                    k <= outgoing@.len(),
                    forall|t: int| 0 <= t < edge_values@.len() ==> {
                        let (x, ev) = #[trigger] edge_values@[t];
                        &&& reported_edge(ns, cache@, x@, ev)
                        &&& exists|ii: int| 0 <= ii < executed@.len() && ns.outgoing(executed@[ii]@).contains(x@)
                    },
                    forall|ii: int, j: int| 0 <= ii < i && 0 <= j < ns.outgoing(executed@[ii]@).len() ==> {
                        let x = #[trigger] ns.outgoing(executed@[ii]@)[j];
                        ns.edge_map().dom().contains(x) && ns.edge_map()[x].from_node@.len() > 0
                            && ns.edge_map()[x].to_node@.len() > 0 ==> exists|t: int| 0 <= t < edge_values@.len()
                            && (#[trigger] edge_values@[t]).0@ == x
                    },
                    forall|j: int| 0 <= j < k ==> {
                        let x = #[trigger] os[j];
                        ns.edge_map().dom().contains(x) && ns.edge_map()[x].from_node@.len() > 0
                            && ns.edge_map()[x].to_node@.len() > 0 ==> exists|t: int| 0 <= t < edge_values@.len()
                            && (#[trigger] edge_values@[t]).0@ == x
                    },
                decreases outgoing@.len() - k,
            {
                let x = outgoing[k];
                assert(os[k as int] == x@);
                let ghost pre = edge_values@;
                match ns.get_edge(&x) {
                    None => {},
                    Some(e) => {
                        match (e.from_node.leaf(), e.to_node.leaf()) {
                            (Some(from_node), Some(to_node)) => {
                                let data = resolve_value(ns, cache, &e.from_node, e.from_output_slot_index, e.from_output_slot_id);
                                let ev = EdgeValue {
                                    from_node,
                                    from_slot: e.from_output_slot_index,
                                    to_node,
                                    to_slot: e.to_input_slot_index,
                                    data,
                                };
                                edge_values.push((x, ev));
                                proof {
                                    assert(ns.outgoing(executed@[i as int]@).contains(x@));
                                    assert(edge_values@[pre.len() as int].0@ == x@);
                                    assert forall|t: int| 0 <= t < edge_values@.len() implies {
                                        let (y, ev) = #[trigger] edge_values@[t];
                                        &&& reported_edge(ns, cache@, y@, ev)
                                        &&& exists|ii: int| 0 <= ii < executed@.len() && ns.outgoing(executed@[ii]@).contains(y@)
                                    } by {
                                        if t < pre.len() {
                                            assert(edge_values@[t] == pre[t]);
                                        }
                                    }
                                }
                            },
                            _ => {},
                        }
                    },
                }
                proof {
                    assert forall|ii: int, j: int| 0 <= ii < i && 0 <= j < ns.outgoing(executed@[ii]@).len() implies {
                        let y = #[trigger] ns.outgoing(executed@[ii]@)[j];
                        ns.edge_map().dom().contains(y) && ns.edge_map()[y].from_node@.len() > 0
                            && ns.edge_map()[y].to_node@.len() > 0 ==> exists|t: int| 0 <= t < edge_values@.len()
                            && (#[trigger] edge_values@[t]).0@ == y
                    } by {
                        let y = ns.outgoing(executed@[ii]@)[j];
                        if ns.edge_map().dom().contains(y) && ns.edge_map()[y].from_node@.len() > 0 && ns.edge_map()[y].to_node@.len() > 0 {
                            let t = choose|t: int| 0 <= t < pre.len() && (#[trigger] pre[t]).0@ == y;
                            assert(edge_values@[t] == pre[t]);
                        }
                    }
                    assert forall|j: int| 0 <= j < k + 1 implies {
                        let y = #[trigger] os[j];
                        ns.edge_map().dom().contains(y) && ns.edge_map()[y].from_node@.len() > 0
                            && ns.edge_map()[y].to_node@.len() > 0 ==> exists|t: int| 0 <= t < edge_values@.len()
                            && (#[trigger] edge_values@[t]).0@ == y
                    } by {
                        let y = os[j];
                        if j < k && ns.edge_map().dom().contains(y) && ns.edge_map()[y].from_node@.len() > 0 && ns.edge_map()[y].to_node@.len() > 0 {
                            let t = choose|t: int| 0 <= t < pre.len() && (#[trigger] pre[t]).0@ == y;
                            assert(edge_values@[t] == pre[t]);
                        }
                    }
                }
                k = k + 1;
            }
            proof {
                assert forall|ii: int, j: int| 0 <= ii < i + 1 && 0 <= j < ns.outgoing(executed@[ii]@).len() implies {
                    let y = #[trigger] ns.outgoing(executed@[ii]@)[j];
                    ns.edge_map().dom().contains(y) && ns.edge_map()[y].from_node@.len() > 0
                        && ns.edge_map()[y].to_node@.len() > 0 ==> exists|t: int| 0 <= t < edge_values@.len()
                        && (#[trigger] edge_values@[t]).0@ == y
                } by {
                    if ii == i {
                        assert(os[j] == ns.outgoing(executed@[ii]@)[j]);
                    }
                }
            }
            i = i + 1;
        }
        let errors = self.execution_errors();
        let removed_nodes = vec_copy_keys(&plan.removed_nodes);
        ExecutionResult { node_outputs, edge_values, errors, removed_nodes }
    }
}

} // verus!
