//! Execution planning over the edge structure: the set of nodes downstream
//! of a change, and the layering of a node set into levels whose members
//! do not depend on each other.

use vstd::prelude::*;
use vstd::set_lib::*;
use crate::assoc::{key_seq, vec_has_key};
use crate::node_path::NodePath;
use crate::node_state::NodeStates;

verus! {

broadcast use {vstd::seq_lib::group_seq_properties, vstd::set_lib::group_set_properties};

/// Edge `x` is recorded as leaving `a` and enters `b`.
pub open spec fn edge_joins<D, V>(ns: &NodeStates<D, V>, x: u128, a: Seq<u128>, b: Seq<u128>) -> bool {
    &&& ns.outgoing(a).contains(x)
    &&& ns.edge_map().dom().contains(x)
    &&& ns.edge_map()[x].to_node@ == b
}

/// Some edge leads from `a` to `b`.
pub open spec fn feeds<D, V>(ns: &NodeStates<D, V>, a: Seq<u128>, b: Seq<u128>) -> bool {
    exists|x: u128| #[trigger] edge_joins(ns, x, a, b)
}

/// Every node fed by a member of `s` is in `s`.
pub open spec fn closed_downstream<D, V>(ns: &NodeStates<D, V>, s: Set<Seq<u128>>) -> bool {
    forall|a: Seq<u128>, b: Seq<u128>| #[trigger] s.contains(a) && #[trigger] feeds(ns, a, b) ==> s.contains(b)
}

/// `r` is the least set that holds `seeds` and everything downstream of
/// its members.
pub open spec fn is_downstream_closure<D, V>(ns: &NodeStates<D, V>, seeds: Set<Seq<u128>>, r: Set<Seq<u128>>) -> bool {
    &&& seeds.subset_of(r)
    &&& closed_downstream(ns, r)
    &&& forall|s: Set<Seq<u128>>| #[trigger] closed_downstream(ns, s) && seeds.subset_of(s) ==> r.subset_of(s)
}

/// Every member of `c` is fed by a member of `c`: a nonempty such set
/// within a finite graph runs round a cycle.
pub open spec fn self_fed<D, V>(ns: &NodeStates<D, V>, c: Set<Seq<u128>>) -> bool {
    forall|b: Seq<u128>| #[trigger] c.contains(b) ==> exists|a: Seq<u128>| c.contains(a) && #[trigger] feeds(ns, a, b)
}

/// `levels` splits `t` into nonempty, disjoint levels such that an edge
/// between two members of `t` always goes to a later level, and each
/// member of a level after the first is fed from the level before it.
pub open spec fn is_layering<D, V>(ns: &NodeStates<D, V>, t: Set<Seq<u128>>, levels: Seq<Seq<Seq<u128>>>) -> bool {
    &&& forall|k: int| 0 <= k < levels.len() ==> #[trigger] levels[k].len() > 0 && levels[k].no_duplicates()
    &&& forall|k1: int, k2: int, p: Seq<u128>|
        0 <= k1 < levels.len() && 0 <= k2 < levels.len() && #[trigger] levels[k1].contains(p) && #[trigger] levels[k2].contains(p)
            ==> k1 == k2
    &&& forall|p: Seq<u128>| t.contains(p) <==> exists|k: int| 0 <= k < levels.len() && #[trigger] levels[k].contains(p)
    &&& forall|k1: int, k2: int, a: Seq<u128>, b: Seq<u128>|
        0 <= k1 < levels.len() && 0 <= k2 < levels.len() && #[trigger] levels[k1].contains(a) && #[trigger] levels[k2].contains(b)
            && feeds(ns, a, b) ==> k1 < k2
    &&& forall|k: int, b: Seq<u128>|
        0 < k < levels.len() && #[trigger] levels[k].contains(b) ==> exists|a: Seq<u128>| levels[k - 1].contains(a) && #[trigger] feeds(ns, a, b)
}

/// The level views of `levels`.
pub open spec fn level_views(levels: Seq<Vec<NodePath>>) -> Seq<Seq<Seq<u128>>> {
    levels.map_values(|l: Vec<NodePath>| key_seq(l@))
}

/// Whether some member of `set` feeds `p`.
pub fn has_feeder_in<D, V>(ns: &NodeStates<D, V>, set: &Vec<NodePath>, p: &NodePath) -> (r: bool)
    requires
        ns.wf(),
    ensures
        r == exists|a: Seq<u128>| key_seq(set@).contains(a) && #[trigger] feeds(ns, a, p@),
{
    let mut i: usize = 0;
    while i < set.len()
        invariant
            ns.wf(),
            i <= set@.len(),
            forall|j: int| 0 <= j < i ==> !#[trigger] feeds(ns, set@[j]@, p@),
        decreases set@.len() - i,
    {
        let q = &set[i];
        let outs = ns.outgoing_edges_at(q);
        let mut k: usize = 0;
        while k < outs.len()
            invariant
                ns.wf(),
                i < set@.len(),
                *q == set@[i as int],
                key_seq(outs@) == ns.outgoing(q@),
                k <= outs@.len(),
                forall|j: int| 0 <= j < k ==> !#[trigger] edge_joins(ns, outs@[j]@, q@, p@),
            decreases outs@.len() - k,
        {
            match ns.get_edge(&outs[k]) {
                Some(e) => {
                    if e.to_node.same_path(p) {
                        proof {
                            assert(key_seq(outs@)[k as int] == outs@[k as int]@);
                            assert(edge_joins(ns, outs@[k as int]@, q@, p@));
                            assert(feeds(ns, q@, p@));
                            assert(key_seq(set@)[i as int] == q@);
                            assert(key_seq(set@).contains(q@));
                        }
                        return true;
                    }
                },
                None => {},
            }
            k = k + 1;
        }
        proof {
            assert forall|x: u128| !edge_joins(ns, x, q@, p@) by {
                if edge_joins(ns, x, q@, p@) {
                    let j = choose|j: int| 0 <= j < key_seq(outs@).len() && key_seq(outs@)[j] == x;
                    assert(outs@[j]@ == x);
                }
            }
        }
        i = i + 1;
    }
    proof {
        assert forall|a: Seq<u128>| key_seq(set@).contains(a) implies !#[trigger] feeds(ns, a, p@) by {
            let j = choose|j: int| 0 <= j < key_seq(set@).len() && key_seq(set@)[j] == a;
            assert(set@[j]@ == a);
        }
    }
    false
}

/// The nodes downstream of `seeds`, the seeds included, each once.
pub fn downstream_of<D, V>(ns: &NodeStates<D, V>, seeds: &Vec<NodePath>) -> (r: Vec<NodePath>)
    requires
        ns.wf(),
    ensures
        is_downstream_closure(ns, key_seq(seeds@).to_set(), key_seq(r@).to_set()),
        key_seq(r@).no_duplicates(),
{
    let ghost sset = key_seq(seeds@).to_set();
    let mut r: Vec<NodePath> = Vec::new();
    let mut k: usize = 0;
    while k < seeds.len()
        invariant
            k <= seeds@.len(),
            key_seq(r@).no_duplicates(),
            key_seq(r@).to_set() == key_seq(seeds@.subrange(0, k as int)).to_set(),
        decreases seeds@.len() - k,
    {
        let ghost before = key_seq(r@);
        proof {
            assert(key_seq(seeds@.subrange(0, k + 1)) =~= key_seq(seeds@.subrange(0, k as int)).push(seeds@[k as int]@));
            key_seq(seeds@.subrange(0, k as int)).lemma_push_to_set_commute(seeds@[k as int]@);
        }
        if !vec_has_key(&r, &seeds[k]) {
            r.push(seeds[k].clone());
            proof {
                assert(key_seq(r@) =~= before.push(seeds@[k as int]@));
                before.lemma_push_to_set_commute(seeds@[k as int]@);
            }
        }
        k = k + 1;
    }
    assert(seeds@.subrange(0, seeds@.len() as int) =~= seeds@);
    let ghost em = ns.edge_map();
    let ghost tset = em.dom().map(|x: u128| em[x].to_node@);
    let ghost u = sset + tset;
    proof {
        ns.lemma_edge_map_finite();
        lemma_map_size_bound(em.dom(), tset, |x: u128| em[x].to_node@);
        lemma_len_union(key_seq(seeds@).to_set(), tset);
    }
    let mut i: usize = 0;
    while i < r.len()
        invariant
            ns.wf(),
            em == ns.edge_map(),
            tset == em.dom().map(|x: u128| em[x].to_node@),
            u == sset + tset,
            u.finite(),
            sset == key_seq(seeds@).to_set(),
            i <= r@.len(),
            key_seq(r@).no_duplicates(),
            sset.subset_of(key_seq(r@).to_set()),
            key_seq(r@).to_set().subset_of(u),
            forall|s: Set<Seq<u128>>| #[trigger] closed_downstream(ns, s) && sset.subset_of(s) ==> key_seq(r@).to_set().subset_of(s),
            forall|j: int, b: Seq<u128>| 0 <= j < i && #[trigger] feeds(ns, r@[j]@, b) ==> key_seq(r@).contains(b),
        decreases u.len() - i,
    {
        proof {
            key_seq(r@).unique_seq_to_set();
            lemma_len_subset(key_seq(r@).to_set(), u);
        }
        let p = r[i].clone();
        let outs = ns.outgoing_edges_at(&p);
        let mut k: usize = 0;
        while k < outs.len()
            invariant
                ns.wf(),
                em == ns.edge_map(),
                tset == em.dom().map(|x: u128| em[x].to_node@),
                u == sset + tset,
                u.finite(),
                i < r@.len(),
                p@ == r@[i as int]@,
                key_seq(outs@) == ns.outgoing(p@),
                k <= outs@.len(),
                key_seq(r@).no_duplicates(),
                sset.subset_of(key_seq(r@).to_set()),
                key_seq(r@).to_set().subset_of(u),
                forall|s: Set<Seq<u128>>| #[trigger] closed_downstream(ns, s) && sset.subset_of(s) ==> key_seq(r@).to_set().subset_of(s),
                forall|j: int, b: Seq<u128>| 0 <= j < i && #[trigger] feeds(ns, r@[j]@, b) ==> key_seq(r@).contains(b),
                forall|j: int, b: Seq<u128>| 0 <= j < k && #[trigger] edge_joins(ns, outs@[j]@, p@, b) ==> key_seq(r@).contains(b),
            decreases outs@.len() - k,
        {
            match ns.get_edge(&outs[k]) {
                Some(e) => {
                    let ghost x = outs@[k as int]@;
                    let ghost b = e.to_node@;
                    proof {
                        assert(key_seq(outs@)[k as int] == x);
                        assert(edge_joins(ns, x, p@, b));
                        assert(tset.contains(b)) by {
                            assert(em.dom().contains(x));
                        }
                    }
                    if !vec_has_key(&r, &e.to_node) {
                        let ghost before = r@;
                        r.push(e.to_node.clone());
                        proof {
                            assert(key_seq(r@) =~= key_seq(before).push(b));
                            key_seq(before).lemma_push_to_set_commute(b);
                            assert forall|s: Set<Seq<u128>>| #[trigger] closed_downstream(ns, s) && sset.subset_of(s)
                                implies key_seq(r@).to_set().subset_of(s) by {
                                assert(key_seq(before).to_set().contains(p@)) by {
                                    assert(key_seq(before)[i as int] == p@);
                                }
                                assert(feeds(ns, p@, b));
                            }
                            assert forall|j: int, c: Seq<u128>| 0 <= j < i && #[trigger] feeds(ns, r@[j]@, c)
                                implies key_seq(r@).contains(c) by {
                                assert(r@[j] == before[j]);
                                assert(key_seq(before).contains(c));
                                let t = choose|t: int| 0 <= t < key_seq(before).len() && key_seq(before)[t] == c;
                                assert(key_seq(r@)[t] == c);
                            }
                            assert forall|j: int, c: Seq<u128>| 0 <= j < k + 1 && #[trigger] edge_joins(ns, outs@[j]@, p@, c)
                                implies key_seq(r@).contains(c) by {
                                if j < k {
                                    assert(key_seq(before).contains(c));
                                    let t = choose|t: int| 0 <= t < key_seq(before).len() && key_seq(before)[t] == c;
                                    assert(key_seq(r@)[t] == c);
                                } else {
                                    assert(key_seq(r@)[before.len() as int] == b);
                                }
                            }
                        }
                    }
                },
                None => {
                    proof {
                        assert(key_seq(outs@)[k as int] == outs@[k as int]@);
                    }
                },
            }
            k = k + 1;
        }
        proof {
            assert forall|j: int, b: Seq<u128>| 0 <= j < i + 1 && #[trigger] feeds(ns, r@[j]@, b)
                implies key_seq(r@).contains(b) by {
                if j == i {
                    let x = choose|x: u128| #[trigger] edge_joins(ns, x, p@, b);
                    let t = choose|t: int| 0 <= t < key_seq(outs@).len() && key_seq(outs@)[t] == x;
                    assert(outs@[t]@ == x);
                }
            }
        }
        i = i + 1;
    }
    proof {
        let rs = key_seq(r@).to_set();
        assert forall|a: Seq<u128>, b: Seq<u128>| #[trigger] rs.contains(a) && #[trigger] feeds(ns, a, b) implies rs.contains(b) by {
            let j = choose|j: int| 0 <= j < key_seq(r@).len() && key_seq(r@)[j] == a;
            assert(r@[j]@ == a);
        }
    }
    r
}

/// Splits `targets` into levels: each level holds the targets fed by no
/// target left after the levels before it. Fails when what is left feeds
/// itself (a cycle).
pub fn topological_levels<D, V>(ns: &NodeStates<D, V>, targets: &Vec<NodePath>) -> (r: Result<Vec<Vec<NodePath>>, String>)
    requires
        ns.wf(),
        key_seq(targets@).no_duplicates(),
    ensures
        match r {
            Ok(levels) => is_layering(ns, key_seq(targets@).to_set(), level_views(levels@)),
            Err(msg) => {
                &&& msg@ == "Graph contains a cycle."@
                &&& exists|c: Set<Seq<u128>>| #[trigger] self_fed(ns, c) && c.subset_of(key_seq(targets@).to_set()) && c.len() > 0 && c.finite()
            },
        },
{
    let ghost t = key_seq(targets@).to_set();
    let mut remaining: Vec<NodePath> = Vec::new();
    let mut k: usize = 0;
    while k < targets.len()
        invariant
            k <= targets@.len(),
            remaining@.len() == k,
            forall|j: int| 0 <= j < k ==> (#[trigger] remaining@[j])@ == targets@[j]@,
        decreases targets@.len() - k,
    {
        remaining.push(targets[k].clone());
        k = k + 1;
    }
    assert(key_seq(remaining@) =~= key_seq(targets@));
    let mut levels: Vec<Vec<NodePath>> = Vec::new();
    while remaining.len() > 0
        invariant
            ns.wf(),
            t == key_seq(targets@).to_set(),
            key_seq(remaining@).no_duplicates(),
            forall|k1: int| 0 <= k1 < levels@.len() ==> #[trigger] key_seq(levels@[k1]@).len() > 0 && key_seq(levels@[k1]@).no_duplicates(),
            forall|k1: int, k2: int, p: Seq<u128>|
                0 <= k1 < levels@.len() && 0 <= k2 < levels@.len() && #[trigger] key_seq(levels@[k1]@).contains(p)
                    && #[trigger] key_seq(levels@[k2]@).contains(p) ==> k1 == k2,
            forall|k1: int, p: Seq<u128>|
                0 <= k1 < levels@.len() && #[trigger] key_seq(levels@[k1]@).contains(p) ==> !key_seq(remaining@).contains(p),
            forall|p: Seq<u128>| t.contains(p) <==> (key_seq(remaining@).contains(p) || exists|k1: int|
                0 <= k1 < levels@.len() && #[trigger] key_seq(levels@[k1]@).contains(p)),
            forall|k1: int, k2: int, a: Seq<u128>, b: Seq<u128>|
                0 <= k1 < levels@.len() && 0 <= k2 < levels@.len() && #[trigger] key_seq(levels@[k1]@).contains(a)
                    && #[trigger] key_seq(levels@[k2]@).contains(b) && feeds(ns, a, b) ==> k1 < k2,
            forall|k1: int, a: Seq<u128>, b: Seq<u128>|
                0 <= k1 < levels@.len() && #[trigger] key_seq(levels@[k1]@).contains(b) && key_seq(remaining@).contains(a)
                    ==> !#[trigger] feeds(ns, a, b),
            forall|k1: int, b: Seq<u128>|
                0 < k1 < levels@.len() && #[trigger] key_seq(levels@[k1]@).contains(b) ==> exists|a: Seq<u128>|
                    key_seq(levels@[k1 - 1]@).contains(a) && #[trigger] feeds(ns, a, b),
            levels@.len() > 0 ==> forall|b: Seq<u128>| #[trigger] key_seq(remaining@).contains(b) ==> exists|a: Seq<u128>|
                (key_seq(levels@[levels@.len() - 1]@).contains(a) || key_seq(remaining@).contains(a)) && #[trigger] feeds(ns, a, b),
        decreases remaining@.len(),
    {
        let mut level: Vec<NodePath> = Vec::new();
        let mut kept: Vec<NodePath> = Vec::new();
        let mut i: usize = 0;
        while i < remaining.len()
            invariant
                ns.wf(),
                i <= remaining@.len(),
                key_seq(remaining@).no_duplicates(),
                forall|p: Seq<u128>| key_seq(level@).contains(p) <==> exists|j: int|
                    0 <= j < i && #[trigger] remaining@[j]@ == p && !(exists|a: Seq<u128>| key_seq(remaining@).contains(a) && #[trigger] feeds(ns, a, p)),
                forall|p: Seq<u128>| key_seq(kept@).contains(p) <==> exists|j: int|
                    0 <= j < i && #[trigger] remaining@[j]@ == p && (exists|a: Seq<u128>| key_seq(remaining@).contains(a) && #[trigger] feeds(ns, a, p)),
                key_seq(level@).no_duplicates(),
                key_seq(kept@).no_duplicates(),
                level@.len() + kept@.len() == i,
            decreases remaining@.len() - i,
        {
            let p = &remaining[i];
            let ghost lb = key_seq(level@);
            let ghost kb = key_seq(kept@);
            let fed = has_feeder_in(ns, &remaining, p);
            proof {
                assert(!lb.contains(p@) && !kb.contains(p@)) by {
                    if lb.contains(p@) || kb.contains(p@) {
                        let j = choose|j: int| 0 <= j < i && #[trigger] remaining@[j]@ == p@;
                        assert(key_seq(remaining@)[j] == key_seq(remaining@)[i as int]);
                    }
                }
            }
            if fed {
                kept.push(p.clone());
                proof {
                    assert(key_seq(kept@) =~= kb.push(p@));
                    assert(key_seq(level@) == lb);
                }
            } else {
                level.push(p.clone());
                proof {
                    assert(key_seq(level@) =~= lb.push(p@));
                    assert(key_seq(kept@) == kb);
                }
            }
            proof {
                assert forall|q: Seq<u128>| key_seq(level@).contains(q) <==> exists|j: int|
                    0 <= j < i + 1 && #[trigger] remaining@[j]@ == q && !(exists|a: Seq<u128>| key_seq(remaining@).contains(a) && #[trigger] feeds(ns, a, q)) by {
                    if q == p@ {
                        assert(remaining@[i as int]@ == q);
                    }
                    if exists|j: int| 0 <= j < i + 1 && #[trigger] remaining@[j]@ == q && !(exists|a: Seq<u128>| key_seq(remaining@).contains(a) && #[trigger] feeds(ns, a, q)) {
                        let j = choose|j: int| 0 <= j < i + 1 && #[trigger] remaining@[j]@ == q && !(exists|a: Seq<u128>| key_seq(remaining@).contains(a) && #[trigger] feeds(ns, a, q));
                        if j < i {
                            assert(lb.contains(q));
                        }
                    }
                }
                assert forall|q: Seq<u128>| key_seq(kept@).contains(q) <==> exists|j: int|
                    0 <= j < i + 1 && #[trigger] remaining@[j]@ == q && (exists|a: Seq<u128>| key_seq(remaining@).contains(a) && #[trigger] feeds(ns, a, q)) by {
                    if q == p@ {
                        assert(remaining@[i as int]@ == q);
                    }
                    if exists|j: int| 0 <= j < i + 1 && #[trigger] remaining@[j]@ == q && (exists|a: Seq<u128>| key_seq(remaining@).contains(a) && #[trigger] feeds(ns, a, q)) {
                        let j = choose|j: int| 0 <= j < i + 1 && #[trigger] remaining@[j]@ == q && (exists|a: Seq<u128>| key_seq(remaining@).contains(a) && #[trigger] feeds(ns, a, q));
                        if j < i {
                            assert(kb.contains(q));
                        }
                    }
                }
            }
            i = i + 1;
        }
        let ghost rem = key_seq(remaining@);
        proof {
            assert forall|p: Seq<u128>| rem.contains(p) <==> (key_seq(level@).contains(p) || key_seq(kept@).contains(p)) by {
                if rem.contains(p) {
                    let j = choose|j: int| 0 <= j < rem.len() && rem[j] == p;
                    assert(remaining@[j]@ == p);
                    if exists|a: Seq<u128>| key_seq(remaining@).contains(a) && #[trigger] feeds(ns, a, p) {
                        assert(key_seq(kept@).contains(p));
                    } else {
                        assert(key_seq(level@).contains(p));
                    }
                }
                if key_seq(level@).contains(p) {
                    let j = choose|j: int|
                        0 <= j < remaining@.len() && #[trigger] remaining@[j]@ == p && !(exists|a: Seq<u128>| key_seq(remaining@).contains(a) && #[trigger] feeds(ns, a, p));
                    assert(rem[j] == p);
                }
                if key_seq(kept@).contains(p) {
                    let j = choose|j: int|
                        0 <= j < remaining@.len() && #[trigger] remaining@[j]@ == p && (exists|a: Seq<u128>| key_seq(remaining@).contains(a) && #[trigger] feeds(ns, a, p));
                    assert(rem[j] == p);
                }
            }
        }
        if level.len() == 0 {
            proof {
                let c = rem.to_set();
                assert(rem.len() > 0);
                assert(rem.contains(rem[0]));
                assert(c.contains(rem[0]));
                assert(self_fed(ns, c)) by {
                    assert forall|b: Seq<u128>| #[trigger] c.contains(b) implies exists|a: Seq<u128>| c.contains(a) && #[trigger] feeds(ns, a, b) by {
                        assert(key_seq(kept@).contains(b));
                        let j = choose|j: int|
                            0 <= j < remaining@.len() && #[trigger] remaining@[j]@ == b && (exists|a: Seq<u128>| key_seq(remaining@).contains(a) && #[trigger] feeds(ns, a, b));
                    }
                }
                assert(c.subset_of(t));
            }
            return Err(String::from_str("Graph contains a cycle."));
        }
        let ghost old_levels = levels@;
        let ghost lv = key_seq(level@);
        let ghost kp = key_seq(kept@);
        proof {
            assert forall|p: Seq<u128>| lv.contains(p) implies !(exists|a: Seq<u128>| rem.contains(a) && #[trigger] feeds(ns, a, p)) by {
                let j = choose|j: int|
                    0 <= j < remaining@.len() && #[trigger] remaining@[j]@ == p && !(exists|a: Seq<u128>| key_seq(remaining@).contains(a) && #[trigger] feeds(ns, a, p));
            }
            assert forall|p: Seq<u128>| kp.contains(p) implies (exists|a: Seq<u128>| rem.contains(a) && #[trigger] feeds(ns, a, p)) by {
                let j = choose|j: int|
                    0 <= j < remaining@.len() && #[trigger] remaining@[j]@ == p && (exists|a: Seq<u128>| key_seq(remaining@).contains(a) && #[trigger] feeds(ns, a, p));
            }
            assert forall|p: Seq<u128>| !(lv.contains(p) && kp.contains(p)) by {}
        }
        levels.push(level);
        remaining = kept;
        proof {
            let n = old_levels.len() as int;
            assert(key_seq(levels@[n]@) == lv);
            assert forall|k1: int| 0 <= k1 < levels@.len() implies #[trigger] key_seq(levels@[k1]@).len() > 0 && key_seq(levels@[k1]@).no_duplicates() by {
                if k1 < n {
                    assert(levels@[k1] == old_levels[k1]);
                }
            }
            assert forall|k1: int, k2: int, p: Seq<u128>|
                0 <= k1 < levels@.len() && 0 <= k2 < levels@.len() && #[trigger] key_seq(levels@[k1]@).contains(p)
                    && #[trigger] key_seq(levels@[k2]@).contains(p) implies k1 == k2 by {
                if k1 < n {
                    assert(levels@[k1] == old_levels[k1]);
                }
                if k2 < n {
                    assert(levels@[k2] == old_levels[k2]);
                }
                if k1 < n && k2 == n {
                    assert(rem.contains(p));
                }
                if k2 < n && k1 == n {
                    assert(rem.contains(p));
                }
            }
            assert forall|k1: int, p: Seq<u128>|
                0 <= k1 < levels@.len() && #[trigger] key_seq(levels@[k1]@).contains(p) implies !key_seq(remaining@).contains(p) by {
                if k1 < n {
                    assert(levels@[k1] == old_levels[k1]);
                    assert(!rem.contains(p));
                }
            }
            assert forall|p: Seq<u128>| t.contains(p) <==> (key_seq(remaining@).contains(p) || exists|k1: int|
                0 <= k1 < levels@.len() && #[trigger] key_seq(levels@[k1]@).contains(p)) by {
                if exists|k1: int| 0 <= k1 < old_levels.len() && #[trigger] key_seq(old_levels[k1]@).contains(p) {
                    let k1 = choose|k1: int| 0 <= k1 < old_levels.len() && #[trigger] key_seq(old_levels[k1]@).contains(p);
                    assert(levels@[k1] == old_levels[k1]);
                }
                if lv.contains(p) {
                    assert(key_seq(levels@[n]@).contains(p));
                }
                if exists|k1: int| 0 <= k1 < levels@.len() && #[trigger] key_seq(levels@[k1]@).contains(p) {
                    let k1 = choose|k1: int| 0 <= k1 < levels@.len() && #[trigger] key_seq(levels@[k1]@).contains(p);
                    if k1 < n {
                        assert(levels@[k1] == old_levels[k1]);
                    }
                }
            }
            assert forall|k1: int, k2: int, a: Seq<u128>, b: Seq<u128>|
                0 <= k1 < levels@.len() && 0 <= k2 < levels@.len() && #[trigger] key_seq(levels@[k1]@).contains(a)
                    && #[trigger] key_seq(levels@[k2]@).contains(b) && feeds(ns, a, b) implies k1 < k2 by {
                if k1 < n {
                    assert(levels@[k1] == old_levels[k1]);
                }
                if k2 < n {
                    assert(levels@[k2] == old_levels[k2]);
                }
                if k1 == n && k2 < n {
                    assert(rem.contains(a));
                }
                if k1 == n && k2 == n {
                    assert(rem.contains(a));
                }
            }
            assert forall|k1: int, a: Seq<u128>, b: Seq<u128>|
                0 <= k1 < levels@.len() && #[trigger] key_seq(levels@[k1]@).contains(b) && key_seq(remaining@).contains(a)
                    implies !#[trigger] feeds(ns, a, b) by {
                assert(rem.contains(a));
                if k1 < n {
                    assert(levels@[k1] == old_levels[k1]);
                }
            }
            assert forall|k1: int, b: Seq<u128>|
                0 < k1 < levels@.len() && #[trigger] key_seq(levels@[k1]@).contains(b) implies exists|a: Seq<u128>|
                    key_seq(levels@[k1 - 1]@).contains(a) && #[trigger] feeds(ns, a, b) by {
                if k1 < n {
                    assert(levels@[k1] == old_levels[k1]);
                    assert(levels@[k1 - 1] == old_levels[k1 - 1]);
                    let a = choose|a: Seq<u128>| key_seq(old_levels[k1 - 1]@).contains(a) && #[trigger] feeds(ns, a, b);
                } else {
                    assert(lv.contains(b));
                    assert(rem.contains(b));
                    let a = choose|a: Seq<u128>|
                        (key_seq(old_levels[n - 1]@).contains(a) || rem.contains(a)) && #[trigger] feeds(ns, a, b);
                    assert(levels@[k1 - 1] == old_levels[n - 1]);
                }
            }
            assert forall|b: Seq<u128>| #[trigger] key_seq(remaining@).contains(b) implies exists|a: Seq<u128>|
                (key_seq(levels@[levels@.len() - 1]@).contains(a) || key_seq(remaining@).contains(a)) && #[trigger] feeds(ns, a, b) by {
                let a = choose|a: Seq<u128>| rem.contains(a) && #[trigger] feeds(ns, a, b);
                assert(lv.contains(a) || kp.contains(a));
            }
            assert(kp.len() < rem.len()) by {
                assert(lv.len() > 0);
            }
        }
    }
    proof {
        let lvs = level_views(levels@);
        assert(lvs.len() == levels@.len());
        assert forall|k1: int| 0 <= k1 < lvs.len() implies #[trigger] lvs[k1] == key_seq(levels@[k1]@) by {}
        assert forall|p: Seq<u128>| !key_seq(remaining@).contains(p) by {}
        assert forall|k1: int| 0 <= k1 < lvs.len() implies #[trigger] lvs[k1].len() > 0 && lvs[k1].no_duplicates() by {
            assert(lvs[k1] == key_seq(levels@[k1]@));
        }
        assert forall|k1: int, k2: int, p: Seq<u128>|
            0 <= k1 < lvs.len() && 0 <= k2 < lvs.len() && #[trigger] lvs[k1].contains(p) && #[trigger] lvs[k2].contains(p)
                implies k1 == k2 by {
            assert(lvs[k1] == key_seq(levels@[k1]@));
            assert(lvs[k2] == key_seq(levels@[k2]@));
        }
        assert forall|p: Seq<u128>| t.contains(p) <==> exists|k1: int| 0 <= k1 < lvs.len() && #[trigger] lvs[k1].contains(p) by {
            if t.contains(p) {
                let k1 = choose|k1: int| 0 <= k1 < levels@.len() && #[trigger] key_seq(levels@[k1]@).contains(p);
                assert(lvs[k1] == key_seq(levels@[k1]@));
            }
            if exists|k1: int| 0 <= k1 < lvs.len() && #[trigger] lvs[k1].contains(p) {
                let k1 = choose|k1: int| 0 <= k1 < lvs.len() && #[trigger] lvs[k1].contains(p);
                assert(lvs[k1] == key_seq(levels@[k1]@));
            }
        }
        assert forall|k1: int, k2: int, a: Seq<u128>, b: Seq<u128>|
            0 <= k1 < lvs.len() && 0 <= k2 < lvs.len() && #[trigger] lvs[k1].contains(a) && #[trigger] lvs[k2].contains(b)
                && feeds(ns, a, b) implies k1 < k2 by {
            assert(lvs[k1] == key_seq(levels@[k1]@));
            assert(lvs[k2] == key_seq(levels@[k2]@));
        }
        assert forall|k1: int, b: Seq<u128>|
            0 < k1 < lvs.len() && #[trigger] lvs[k1].contains(b) implies exists|a: Seq<u128>| lvs[k1 - 1].contains(a) && #[trigger] feeds(ns, a, b) by {
            assert(lvs[k1] == key_seq(levels@[k1]@));
            assert(lvs[k1 - 1] == key_seq(levels@[k1 - 1]@));
            let a = choose|a: Seq<u128>| key_seq(levels@[k1 - 1]@).contains(a) && #[trigger] feeds(ns, a, b);
        }
    }
    Ok(levels)
}

} // verus!
