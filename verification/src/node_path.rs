//! Hierarchical node identity: the root is the empty path, and each
//! level below a SubGraph adds the local id of the next node.

use vstd::prelude::*;
use crate::assoc::MapKey;
use crate::ids::{ulid_text, NodeId};

verus! {

/// The path of a node: the local ids from the top level down.
#[derive(Debug)]
pub struct NodePath {
    segments: Vec<NodeId>,
}

impl View for NodePath {
    type V = Seq<u128>;

    closed spec fn view(&self) -> Seq<u128> {
        self.segments@.map_values(|n: NodeId| n@)
    }
}

/// The path text: `/` for the root, otherwise `/` before each segment's
/// ULID text.
pub open spec fn path_text(p: Seq<u128>) -> Seq<char>
    decreases p.len(),
{
    if p.len() == 0 {
        Seq::empty()
    } else {
        path_text(p.drop_last()) + seq!['/'] + ulid_text(p.last())
    }
}

/// The displayed text of a path: `/` for the root.
pub open spec fn path_display(p: Seq<u128>) -> Seq<char> {
    if p.len() == 0 { seq!['/'] } else { path_text(p) }
}

impl NodePath {
    /// The path of the root graph.
    pub fn root() -> (r: Self)
        ensures
            r@ == Seq::<u128>::empty(),
    {
        let r = NodePath { segments: Vec::new() };
        assert(r@ =~= Seq::<u128>::empty());
        r
    }

    /// This path extended by one level.
    pub fn child(&self, id: NodeId) -> (r: Self)
        ensures
            r@ == self@.push(id@),
    {
        let mut v: Vec<NodeId> = Vec::new();
        let mut i: usize = 0;
        while i < self.segments.len()
            invariant
                i <= self.segments@.len(),
                v@ == self.segments@.subrange(0, i as int),
            decreases self.segments@.len() - i,
        {
            v.push(self.segments[i]);
            i = i + 1;
            assert(v@ =~= self.segments@.subrange(0, i as int));
        }
        assert(v@ =~= self.segments@);
        v.push(id);
        let r = NodePath { segments: v };
        assert(r@ =~= self@.push(id@));
        r
    }

    /// The enclosing path, or `None` at the root.
    pub fn parent(&self) -> (r: Option<Self>)
        ensures
            match r {
                Some(p) => self@.len() > 0 && p@ == self@.drop_last(),
                None => self@.len() == 0,
            },
    {
        if self.segments.len() == 0 {
            return None;
        }
        let n = self.segments.len() - 1;
        let mut v: Vec<NodeId> = Vec::new();
        let mut i: usize = 0;
        while i < n
            invariant
                n == self.segments@.len() - 1,
                i <= n,
                v@ == self.segments@.subrange(0, i as int),
            decreases n - i,
        {
            v.push(self.segments[i]);
            i = i + 1;
            assert(v@ =~= self.segments@.subrange(0, i as int));
        }
        let r = NodePath { segments: v };
        assert(r@ =~= self@.drop_last());
        Some(r)
    }

    /// The last segment, or `None` at the root.
    pub fn leaf(&self) -> (r: Option<NodeId>)
        ensures
            match r {
                Some(id) => self@.len() > 0 && id@ == self@.last(),
                None => self@.len() == 0,
            },
    {
        if self.segments.len() == 0 {
            None
        } else {
            Some(self.segments[self.segments.len() - 1])
        }
    }

    /// Whether this is the root path.
    pub fn is_root(&self) -> (r: bool)
        ensures
            r == (self@.len() == 0),
    {
        self.segments.len() == 0
    }

    /// The local ids, from the top level down.
    pub fn segments(&self) -> (r: &[NodeId])
        ensures
            r@.map_values(|n: NodeId| n@) == self@,
    {
        self.segments.as_slice()
    }

    /// Number of segments.
    pub fn depth(&self) -> (r: usize)
        ensures
            r == self@.len(),
    {
        self.segments.len()
    }

    /// Whether two paths are the same.
    pub fn same_path(&self, other: &NodePath) -> (r: bool)
        ensures
            r == (self@ == other@),
    {
        if self.segments.len() != other.segments.len() {
            assert(self@.len() != other@.len());
            return false;
        }
        let mut i: usize = 0;
        while i < self.segments.len()
            invariant
                self.segments@.len() == other.segments@.len(),
                i <= self.segments@.len(),
                forall|j: int| 0 <= j < i ==> self@[j] == other@[j],
            decreases self.segments@.len() - i,
        {
            if self.segments[i].id() != other.segments[i].id() {
                assert(self@[i as int] != other@[i as int]);
                return false;
            }
            i = i + 1;
        }
        assert(self@ =~= other@);
        true
    }

    /// The displayed text of the path.
    pub fn display_string(&self) -> (r: String)
        ensures
            r@ == path_display(self@),
    {
        if self.segments.len() == 0 {
            proof {
                reveal_strlit("/");
            }
            return String::from_str("/");
        }
        let mut s = String::new();
        let mut i: usize = 0;
        while i < self.segments.len()
            invariant
                i <= self.segments@.len(),
                s@ == path_text(self@.subrange(0, i as int)),
            decreases self.segments@.len() - i,
        {
            let t = self.segments[i].id_string();
            s.append("/");
            s.append(t.as_str());
            proof {
                reveal_strlit("/");
                let p = self@.subrange(0, i + 1);
                assert(p.drop_last() =~= self@.subrange(0, i as int));
                assert(p.last() == self@[i as int]);
            }
            i = i + 1;
        }
        assert(self@.subrange(0, self@.len() as int) =~= self@);
        s
    }
}

impl Clone for NodePath {
    fn clone(&self) -> (r: Self)
        ensures
            r@ == self@,
    {
        let mut v: Vec<NodeId> = Vec::new();
        let mut i: usize = 0;
        while i < self.segments.len()
            invariant
                i <= self.segments@.len(),
                v@ == self.segments@.subrange(0, i as int),
            decreases self.segments@.len() - i,
        {
            v.push(self.segments[i]);
            i = i + 1;
            assert(v@ =~= self.segments@.subrange(0, i as int));
        }
        assert(v@ =~= self.segments@);
        NodePath { segments: v }
    }
}

impl PartialEq for NodePath {
    fn eq(&self, other: &Self) -> (r: bool) {
        self.same_path(other)
    }
}

impl vstd::std_specs::cmp::PartialEqSpecImpl for NodePath {
    open spec fn obeys_eq_spec() -> bool {
        true
    }

    open spec fn eq_spec(&self, other: &NodePath) -> bool {
        self@ == other@
    }
}

impl Eq for NodePath {}

impl MapKey for NodePath {
    fn same_key(&self, other: &Self) -> (r: bool) {
        self.same_path(other)
    }

    fn copy_key(&self) -> (r: Self) {
        self.clone()
    }
}

} // verus!
