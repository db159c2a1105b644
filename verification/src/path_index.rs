//! Direct-children index: parent path to the ordered local ids of its
//! direct children.

use vstd::prelude::*;
use crate::assoc::{key_seq, seq_without, vec_copy_keys, vec_has_key, vec_without_key, AssocMap};
use crate::ids::NodeId;
use crate::node_path::NodePath;

verus! {

/// The children of each SubGraph path, in insertion order.
pub struct PathIndex {
    by_parent: AssocMap<NodePath, Vec<NodeId>>,
}

impl PathIndex {
    /// The index is well formed.
    pub closed spec fn wf(&self) -> bool {
        self.by_parent.wf()
    }

    /// The ordered direct children recorded under `parent`.
    pub closed spec fn children(&self, parent: Seq<u128>) -> Seq<u128> {
        if self.by_parent@.dom().contains(parent) {
            key_seq(self.by_parent@[parent]@)
        } else {
            Seq::empty()
        }
    }

    /// The longest key among the first `n` recorded parents.
    spec fn max_key_len(&self, n: nat) -> nat
        decreases n,
    {
        if n == 0 {
            0
        } else {
            let l = self.by_parent.key_at(n - 1).len();
            let m = self.max_key_len((n - 1) as nat);
            if l > m { l } else { m }
        }
    }

    /// No parent with recorded children is longer than this.
    pub closed spec fn depth_bound(&self) -> nat {
        self.max_key_len(self.by_parent.spec_len())
    }

    proof fn lemma_max_key_len(&self, n: nat, i: int)
        requires
            0 <= i < n,
        ensures
            self.by_parent.key_at(i).len() <= self.max_key_len(n),
        decreases n,
    {
        if i < n - 1 {
            self.lemma_max_key_len((n - 1) as nat, i);
        }
    }

    /// A parent with children is no longer than the depth bound.
    pub proof fn lemma_depth_bound(&self, p: Seq<u128>)
        requires
            self.wf(),
            self.children(p).len() > 0,
        ensures
            p.len() <= self.depth_bound(),
    {
        self.by_parent.lemma_entries();
        assert(self.by_parent@.dom().contains(p));
        let i = choose|i: int| 0 <= i < self.by_parent.spec_len() && #[trigger] self.by_parent.key_at(i) == p;
        self.lemma_max_key_len(self.by_parent.spec_len(), i);
    }

    /// An empty index.
    pub fn new() -> (r: Self)
        ensures
            r.wf(),
            forall|p: Seq<u128>| #[trigger] r.children(p) == Seq::<u128>::empty(),
    {
        PathIndex { by_parent: AssocMap::new() }
    }

    /// Records `path` under its parent. The root path records nothing; a
    /// child already recorded is not recorded twice.
    pub fn insert(&mut self, path: &NodePath)
        requires
            old(self).wf(),
        ensures
            final(self).wf(),
            forall|p: Seq<u128>| #[trigger] final(self).children(p) == if path@.len() > 0 && p
                == path@.drop_last() && !old(self).children(p).contains(path@.last()) {
                old(self).children(p).push(path@.last())
            } else {
                old(self).children(p)
            },
    {
        let local = match path.leaf() {
            None => {
                return;
            },
            Some(id) => id,
        };
        let parent = match path.parent() {
            Some(p) => p,
            None => NodePath::root(),
        };
        let mut list = match self.by_parent.get(&parent) {
            Some(v) => vec_copy_keys(v),
            None => Vec::new(),
        };
        assert(key_seq(list@) == old(self).children(parent@));
        if vec_has_key(&list, &local) {
            return;
        }
        let ghost before = list@;
        list.push(local);
        assert(key_seq(list@) =~= key_seq(before).push(local@));
        self.by_parent.insert(parent, list);
    }

    /// Forgets `path` under its parent; the root path is ignored.
    pub fn remove(&mut self, path: &NodePath)
        requires
            old(self).wf(),
        ensures
            final(self).wf(),
            forall|p: Seq<u128>| #[trigger] final(self).children(p) == if path@.len() > 0 && p
                == path@.drop_last() {
                seq_without(old(self).children(p), path@.last())
            } else {
                old(self).children(p)
            },
    {
        let local = match path.leaf() {
            None => {
                return;
            },
            Some(id) => id,
        };
        let parent = match path.parent() {
            Some(p) => p,
            None => {
                return;
            },
        };
        let kept = match self.by_parent.get(&parent) {
            Some(v) => vec_without_key(v, &local),
            None => {
                assert forall|p: Seq<u128>| #[trigger] self.children(p) == if path@.len() > 0 && p
                    == path@.drop_last() {
                    seq_without(old(self).children(p), path@.last())
                } else {
                    old(self).children(p)
                } by {

                }
                return;
            },
        };
        if kept.len() == 0 {
            self.by_parent.remove(&parent);
            assert(key_seq(kept@) =~= Seq::<u128>::empty());
        } else {
            self.by_parent.insert(parent, kept);
        }
    }

    /// The direct children of `parent`, in recording order.
    pub fn children_of(&self, parent: &NodePath) -> (r: Vec<NodeId>)
        requires
            self.wf(),
        ensures
            key_seq(r@) == self.children(parent@),
    {
        match self.by_parent.get(parent) {
            Some(v) => vec_copy_keys(v),
            None => Vec::new(),
        }
    }
}

impl Default for PathIndex {
    fn default() -> (r: Self)
        ensures
            r.wf(),
            forall|p: Seq<u128>| #[trigger] r.children(p) == Seq::<u128>::empty(),
    {
        PathIndex::new()
    }
}

} // verus!
