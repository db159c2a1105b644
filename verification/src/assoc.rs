//! Association maps: a small vector-backed map keyed by any type whose
//! identity is given by its view. Used for every keyed table of the graph
//! state (nodes, slots, edges, connection lists, error registry).

use vstd::prelude::*;

verus! {

/// Keys of an [`AssocMap`]: identity is the key's view.
pub trait MapKey: View + Sized {
    fn same_key(&self, other: &Self) -> (r: bool)
        ensures
            r == (self@ == other@),
    ;

    fn copy_key(&self) -> (r: Self)
        ensures
            r@ == self@,
    ;
}

/// The key views of a vector of keys.
pub open spec fn key_seq<K: View>(s: Seq<K>) -> Seq<K::V> {
    s.map_values(|k: K| k@)
}

/// `s` without any occurrence of `x`, in order.
pub open spec fn seq_without<T>(s: Seq<T>, x: T) -> Seq<T>
    decreases s.len(),
{
    if s.len() == 0 {
        s
    } else {
        let w = seq_without(s.drop_last(), x);
        if s.last() == x {
            w
        } else {
            w.push(s.last())
        }
    }
}

/// `s` without the elements of `d`, in order.
pub open spec fn seq_drop_set<T>(s: Seq<T>, d: Set<T>) -> Seq<T>
    decreases s.len(),
{
    if s.len() == 0 {
        s
    } else {
        let w = seq_drop_set(s.drop_last(), d);
        if d.contains(s.last()) {
            w
        } else {
            w.push(s.last())
        }
    }
}

/// Dropping one more element after dropping a set is dropping the larger
/// set.
pub proof fn lemma_drop_set_then_without<T>(s: Seq<T>, d: Set<T>, x: T)
    ensures
        seq_without(seq_drop_set(s, d), x) == seq_drop_set(s, d.insert(x)),
    decreases s.len(),
{
    if s.len() > 0 {
        lemma_drop_set_then_without(s.drop_last(), d, x);
        let w = seq_drop_set(s.drop_last(), d);
        if !d.contains(s.last()) {
            assert(w.push(s.last()).drop_last() =~= w);
        }
    }
}

/// Dropping two sets one after the other is dropping their union.
pub proof fn lemma_drop_set_union<T>(s: Seq<T>, a: Set<T>, b: Set<T>)
    ensures
        seq_drop_set(seq_drop_set(s, a), b) == seq_drop_set(s, a + b),
    decreases s.len(),
{
    if s.len() > 0 {
        lemma_drop_set_union(s.drop_last(), a, b);
        let w = seq_drop_set(s.drop_last(), a);
        if !a.contains(s.last()) {
            assert(w.push(s.last()).drop_last() =~= w);
        }
    }
}

/// Dropping a set that holds none of the elements changes nothing.
pub proof fn lemma_drop_set_disjoint<T>(s: Seq<T>, d: Set<T>)
    requires
        forall|i: int| 0 <= i < s.len() ==> !d.contains(#[trigger] s[i]),
    ensures
        seq_drop_set(s, d) == s,
    decreases s.len(),
{
    if s.len() > 0 {
        lemma_drop_set_disjoint(s.drop_last(), d);
        assert(s.drop_last().push(s.last()) =~= s);
    }
}

/// Filtering twice keeps what both predicates keep.
pub proof fn lemma_filter_filter<A>(s: Seq<A>, p: spec_fn(A) -> bool, q: spec_fn(A) -> bool)
    ensures
        s.filter(p).filter(q) == s.filter(|x: A| p(x) && q(x)),
    decreases s.len(),
{
    reveal(Seq::filter);
    let pq = |x: A| p(x) && q(x);
    if s.len() == 0 {
        assert(s.filter(p).filter(q) =~= s.filter(pq));
    } else {
        lemma_filter_filter(s.drop_last(), p, q);
        let sub = s.drop_last().filter(p);
        if p(s.last()) {
            sub.lemma_filter_push(s.last(), q);
        }
    }
}

/// Whether some key of `v` has the view of `x`.
pub fn vec_has_key<K: MapKey>(v: &Vec<K>, x: &K) -> (r: bool)
    ensures
        r == key_seq(v@).contains(x@),
{
    let mut i: usize = 0;
    while i < v.len()
        invariant
            i <= v@.len(),
            forall|j: int| 0 <= j < i ==> (#[trigger] v@[j])@ != x@,
        decreases v@.len() - i,
    {
        if v[i].same_key(x) {
            assert(key_seq(v@)[i as int] == x@);
            return true;
        }
        i = i + 1;
    }
    proof {
        if key_seq(v@).contains(x@) {
            let ks = key_seq(v@);
            let k = choose|k: int| 0 <= k < ks.len() && #[trigger] ks[k] == x@;
            assert(v@[k]@ == x@);
        }
    }
    false
}

/// Position of the first key of `v` with the view of `x`.
pub fn vec_key_position<K: MapKey>(v: &Vec<K>, x: &K) -> (r: Option<usize>)
    ensures
        match r {
            Some(i) => i < v@.len() && v@[i as int]@ == x@ && forall|j: int|
                0 <= j < i ==> (#[trigger] v@[j])@ != x@,
            None => !key_seq(v@).contains(x@),
        },
{
    let mut i: usize = 0;
    while i < v.len()
        invariant
            i <= v@.len(),
            forall|j: int| 0 <= j < i ==> (#[trigger] v@[j])@ != x@,
        decreases v@.len() - i,
    {
        if v[i].same_key(x) {
            return Some(i);
        }
        i = i + 1;
    }
    proof {
        if key_seq(v@).contains(x@) {
            let ks = key_seq(v@);
            let k = choose|k: int| 0 <= k < ks.len() && #[trigger] ks[k] == x@;
            assert(v@[k]@ == x@);
        }
    }
    None
}

/// The keys of `v` other than those with the view of `x`, in order.
pub fn vec_without_key<K: MapKey>(v: &Vec<K>, x: &K) -> (r: Vec<K>)
    ensures
        key_seq(r@) == seq_without(key_seq(v@), x@),
{
    let mut r: Vec<K> = Vec::new();
    let mut i: usize = 0;
    while i < v.len()
        invariant
            i <= v@.len(),
            key_seq(r@) == seq_without(key_seq(v@.subrange(0, i as int)), x@),
        decreases v@.len() - i,
    {
        let ghost prev = r@;
        proof {
            let s = key_seq(v@.subrange(0, i as int));
            assert(key_seq(v@.subrange(0, i + 1)) =~= s.push(v@[i as int]@));
            assert(s.push(v@[i as int]@).drop_last() =~= s);
        }
        if !v[i].same_key(x) {
            r.push(v[i].copy_key());
            assert(key_seq(r@) =~= key_seq(prev).push(v@[i as int]@));
        }
        i = i + 1;
    }
    assert(v@.subrange(0, v@.len() as int) =~= v@);
    r
}

/// A copy of the keys of `v`.
pub fn vec_copy_keys<K: MapKey>(v: &Vec<K>) -> (r: Vec<K>)
    ensures
        key_seq(r@) == key_seq(v@),
{
    let mut r: Vec<K> = Vec::new();
    let mut i: usize = 0;
    while i < v.len()
        invariant
            i <= v@.len(),
            key_seq(r@) == key_seq(v@.subrange(0, i as int)),
        decreases v@.len() - i,
    {
        r.push(v[i].copy_key());
        assert(key_seq(v@.subrange(0, i + 1)) =~= key_seq(v@.subrange(0, i as int)).push(
            v@[i as int]@,
        ));
        i = i + 1;
        assert(key_seq(r@) =~= key_seq(v@.subrange(0, i as int)));
    }
    assert(v@.subrange(0, v@.len() as int) =~= v@);
    r
}

/// A map with at most one entry per key view, kept in insertion order.
pub struct AssocMap<K, V> {
    entries: Vec<(K, V)>,
}

impl<K: MapKey, V> AssocMap<K, V> {
    /// The keys are pairwise distinct.
    pub closed spec fn wf(&self) -> bool {
        forall|i: int, j: int|
            0 <= i < self.entries@.len() && 0 <= j < self.entries@.len() && i != j
                ==> (#[trigger] self.entries@[i]).0@ != (#[trigger] self.entries@[j]).0@
    }

    /// Number of stored entries.
    pub closed spec fn spec_len(&self) -> nat {
        self.entries@.len()
    }

    /// Key view of the entry at position `i`.
    pub closed spec fn key_at(&self, i: int) -> K::V {
        self.entries@[i].0@
    }

    /// Value of the entry at position `i`.
    pub closed spec fn value_at(&self, i: int) -> V {
        self.entries@[i].1
    }

    /// Whether some entry has the key `k`.
    pub closed spec fn has(&self, k: K::V) -> bool {
        exists|i: int| 0 <= i < self.entries@.len() && (#[trigger] self.entries@[i]).0@ == k
    }

    /// The index of the first entry with key `k`.
    pub closed spec fn pos(&self, k: K::V) -> int {
        choose|i: int| 0 <= i < self.entries@.len() && (#[trigger] self.entries@[i]).0@ == k
    }

    /// The abstract map.
    pub closed spec fn view(&self) -> Map<K::V, V> {
        Map::new(|k: K::V| self.has(k), |k: K::V| self.entries@[self.pos(k)].1)
    }

    proof fn lemma_pos(&self, i: int)
        requires
            self.wf(),
            0 <= i < self.entries@.len(),
        ensures
            self.has(self.entries@[i].0@),
            self.pos(self.entries@[i].0@) == i,
    {
        let k = self.entries@[i].0@;
        assert(self.has(k));
    }

    /// Every position holds a key of the map with its value, and every key
    /// of the map sits at some position.
    pub proof fn lemma_entries(&self)
        requires
            self.wf(),
        ensures
            forall|i: int|
                0 <= i < self.spec_len() ==> #[trigger] self@.dom().contains(self.key_at(i))
                    && self@[self.key_at(i)] == self.value_at(i),
            forall|k: K::V|
                #[trigger] self@.dom().contains(k) ==> exists|i: int|
                    0 <= i < self.spec_len() && #[trigger] self.key_at(i) == k,
            forall|i: int, j: int|
                0 <= i < self.spec_len() && 0 <= j < self.spec_len() && i != j
                    ==> #[trigger] self.key_at(i) != #[trigger] self.key_at(j),
            self@.dom().finite(),
            self@.dom().len() == self.spec_len(),
    {
        assert forall|i: int| 0 <= i < self.spec_len() implies #[trigger] self@.dom().contains(
            self.key_at(i),
        ) && self@[self.key_at(i)] == self.value_at(i) by {
            self.lemma_pos(i);
        }
        assert forall|k: K::V| #[trigger] self@.dom().contains(k) implies exists|i: int|
            0 <= i < self.spec_len() && #[trigger] self.key_at(i) == k by {
            let i = self.pos(k);
            assert(self.key_at(i) == k);
        }
        assert forall|i: int, j: int|
            0 <= i < self.spec_len() && 0 <= j < self.spec_len() && i != j
                implies #[trigger] self.key_at(i) != #[trigger] self.key_at(j) by {
            assert(self.entries@[i].0@ != self.entries@[j].0@);
        }
        self.lemma_dom_len();
    }

    proof fn lemma_dom_len(&self)
        requires
            self.wf(),
        ensures
            self@.dom().finite(),
            self@.dom().len() == self.spec_len(),
        decreases self.entries@.len(),
    {
        let keys = self.entries@.map_values(|e: (K, V)| e.0@);
        assert(keys.no_duplicates()) by {
            assert forall|i: int, j: int|
                0 <= i < keys.len() && 0 <= j < keys.len() && i != j implies keys[i] != keys[j] by {
                assert(self.entries@[i].0@ != self.entries@[j].0@);
            }
        }
        assert(self@.dom() =~= keys.to_set()) by {
            assert forall|k: K::V| self@.dom().contains(k) implies keys.to_set().contains(k) by {
                let i = self.pos(k);
                assert(keys[i] == k);
            }
            assert forall|k: K::V| keys.to_set().contains(k) implies self@.dom().contains(k) by {
                let i = choose|i: int| 0 <= i < keys.len() && keys[i] == k;
                assert(self.entries@[i].0@ == k);
            }
        }
        keys.unique_seq_to_set();
    }

    /// An empty map.
    pub fn new() -> (r: Self)
        ensures
            r.wf(),
            r@ == Map::<K::V, V>::empty(),
            r.spec_len() == 0,
    {
        let r = AssocMap { entries: Vec::new() };
        assert(r@ =~= Map::<K::V, V>::empty());
        r
    }

    /// Number of entries.
    pub fn len(&self) -> (r: usize)
        requires
            self.wf(),
        ensures
            r == self@.dom().len(),
            r == self.spec_len(),
    {
        proof {
            self.lemma_dom_len();
        }
        self.entries.len()
    }

    /// Position of `k`, if present.
    pub fn find(&self, k: &K) -> (r: Option<usize>)
        requires
            self.wf(),
        ensures
            match r {
                Some(i) => i < self.spec_len() && self.key_at(i as int) == k@ && self@.dom().contains(
                    k@,
                ) && self@[k@] == self.value_at(i as int),
                None => !self@.dom().contains(k@),
            },
    {
        let mut i: usize = 0;
        while i < self.entries.len()
            invariant
                self.wf(),
                i <= self.entries@.len(),
                forall|j: int| 0 <= j < i ==> (#[trigger] self.entries@[j]).0@ != k@,
            decreases self.entries@.len() - i,
        {
            if self.entries[i].0.same_key(k) {
                proof {
                    self.lemma_pos(i as int);
                }
                return Some(i);
            }
            i = i + 1;
        }
        None
    }

    /// Whether `k` has an entry.
    pub fn contains_key(&self, k: &K) -> (r: bool)
        requires
            self.wf(),
        ensures
            r == self@.dom().contains(k@),
    {
        self.find(k).is_some()
    }

    /// The value stored under `k`.
    pub fn get(&self, k: &K) -> (r: Option<&V>)
        requires
            self.wf(),
        ensures
            match r {
                Some(v) => self@.dom().contains(k@) && *v == self@[k@],
                None => !self@.dom().contains(k@),
            },
    {
        match self.find(k) {
            Some(i) => Some(&self.entries[i].1),
            None => None,
        }
    }

    /// Key stored at position `i`.
    pub fn key(&self, i: usize) -> (r: &K)
        requires
            i < self.spec_len(),
        ensures
            r@ == self.key_at(i as int),
    {
        &self.entries[i].0
    }

    /// Value stored at position `i`.
    pub fn value(&self, i: usize) -> (r: &V)
        requires
            i < self.spec_len(),
        ensures
            *r == self.value_at(i as int),
    {
        &self.entries[i].1
    }

    /// Insert or overwrite.
    pub fn insert(&mut self, k: K, v: V)
        requires
            old(self).wf(),
        ensures
            final(self).wf(),
            final(self)@ == old(self)@.insert(k@, v),
    {
        let ghost kv = k@;
        match self.find(&k) {
            Some(i) => {
                self.entries.set(i, (k, v));
                proof {
                    assert(self.wf()) by {
                        assert forall|a: int, b: int|
                            0 <= a < self.entries@.len() && 0 <= b < self.entries@.len() && a != b
                                implies (#[trigger] self.entries@[a]).0@ != (
                            #[trigger] self.entries@[b]).0@ by {
                            if a != i && b != i {
                                assert(old(self).entries@[a] == self.entries@[a]);
                                assert(old(self).entries@[b] == self.entries@[b]);
                            } else if a == i {
                                assert(old(self).entries@[b] == self.entries@[b]);
                                assert(old(self).entries@[a].0@ == kv);
                            } else {
                                assert(old(self).entries@[a] == self.entries@[a]);
                                assert(old(self).entries@[b].0@ == kv);
                            }
                        }
                    }
                    self.lemma_view_insert_at(*old(self), i as int, kv, v);
                }
            },
            None => {
                self.entries.push((k, v));
                proof {
                    let n = old(self).entries@.len() as int;
                    assert(self.wf()) by {
                        assert forall|a: int, b: int|
                            0 <= a < self.entries@.len() && 0 <= b < self.entries@.len() && a != b
                                implies (#[trigger] self.entries@[a]).0@ != (
                            #[trigger] self.entries@[b]).0@ by {
                            if a != n && b != n {
                                assert(old(self).entries@[a] == self.entries@[a]);
                                assert(old(self).entries@[b] == self.entries@[b]);
                            } else if a == n {
                                assert(old(self).entries@[b] == self.entries@[b]);
                                assert(!old(self).has(kv));
                            } else {
                                assert(old(self).entries@[a] == self.entries@[a]);
                                assert(!old(self).has(kv));
                            }
                        }
                    }
                    self.lemma_view_insert_at(*old(self), n, kv, v);
                }
            },
        }
    }

    proof fn lemma_view_insert_at(&self, prev: Self, i: int, kv: K::V, v: V)
        requires
            self.wf(),
            prev.wf(),
            0 <= i < self.entries@.len(),
            self.entries@[i].0@ == kv,
            self.entries@[i].1 == v,
            forall|j: int|
                0 <= j < self.entries@.len() && j != i ==> j < prev.entries@.len()
                    && #[trigger] self.entries@[j] == prev.entries@[j],
            prev.entries@.len() <= self.entries@.len(),
            i < prev.entries@.len() ==> prev.entries@[i].0@ == kv,
            i >= prev.entries@.len() ==> !prev.has(kv),
        ensures
            self@ == prev@.insert(kv, v),
    {
        assert forall|k: K::V| #[trigger] self@.dom().contains(k) == prev@.insert(kv, v).dom().contains(
            k,
        ) by {
            if self.has(k) {
                let j = self.pos(k);
                if j != i {
                    assert(prev.entries@[j].0@ == k);
                }
            }
            if prev.has(k) && k != kv {
                let j = prev.pos(k);
                assert(j != i);
                assert(self.entries@[j].0@ == k);
            }
            if k == kv {
                assert(self.entries@[i].0@ == k);
            }
        }
        assert forall|k: K::V| #[trigger] self@.dom().contains(k) implies self@[k] == prev@.insert(
            kv,
            v,
        )[k] by {
            let j = self.pos(k);
            self.lemma_pos(j);
            if k == kv {
                self.lemma_pos(i);
            } else {
                assert(j != i);
                assert(prev.entries@[j] == self.entries@[j]);
                prev.lemma_pos(j);
            }
        }
        assert(self@ =~= prev@.insert(kv, v));
    }

    /// Replace the value stored at position `i`, keeping its key.
    pub fn set_value(&mut self, i: usize, v: V)
        requires
            old(self).wf(),
            i < old(self).spec_len(),
        ensures
            final(self).wf(),
            final(self).spec_len() == old(self).spec_len(),
            final(self)@ == old(self)@.insert(old(self).key_at(i as int), v),
            forall|j: int|
                0 <= j < final(self).spec_len() ==> #[trigger] final(self).key_at(j) == old(self).key_at(j),
            forall|j: int|
                0 <= j < final(self).spec_len() && j != i ==> #[trigger] final(self).value_at(j)
                    == old(self).value_at(j),
            final(self).value_at(i as int) == v,
    {
        let k = self.entries[i].0.copy_key();
        self.entries.set(i, (k, v));
        proof {
            let kv = old(self).entries@[i as int].0@;
            assert(self.wf()) by {
                assert forall|a: int, b: int|
                    0 <= a < self.entries@.len() && 0 <= b < self.entries@.len() && a != b
                        implies (#[trigger] self.entries@[a]).0@ != (
                    #[trigger] self.entries@[b]).0@ by {
                    assert(old(self).entries@[a].0@ != old(self).entries@[b].0@);
                    assert(self.entries@[a].0@ == old(self).entries@[a].0@);
                    assert(self.entries@[b].0@ == old(self).entries@[b].0@);
                }
            }
            self.lemma_view_insert_at(*old(self), i as int, kv, v);
        }
    }

    /// A copy of every key, in storage order.
    pub fn keys(&self) -> (r: Vec<K>)
        requires
            self.wf(),
        ensures
            r@.len() == self.spec_len(),
            forall|i: int| 0 <= i < r@.len() ==> (#[trigger] r@[i])@ == self.key_at(i),
    {
        let mut r: Vec<K> = Vec::new();
        let mut i: usize = 0;
        while i < self.entries.len()
            invariant
                i <= self.entries@.len(),
                r@.len() == i,
                forall|j: int| 0 <= j < i ==> (#[trigger] r@[j])@ == self.key_at(j),
            decreases self.entries@.len() - i,
        {
            r.push(self.entries[i].0.copy_key());
            i = i + 1;
        }
        r
    }

    /// Remove `k`, returning its value.
    pub fn remove(&mut self, k: &K) -> (r: Option<V>)
        requires
            old(self).wf(),
        ensures
            final(self).wf(),
            final(self)@ == old(self)@.remove(k@),
            match r {
                Some(v) => old(self)@.dom().contains(k@) && v == old(self)@[k@],
                None => !old(self)@.dom().contains(k@),
            },
    {
        match self.find(k) {
            None => {
                assert(self@ =~= old(self)@.remove(k@));
                None
            },
            Some(i) => {
                let (_, v) = self.entries.remove(i);
                proof {
                    let prev = *old(self);
                    assert forall|j: int| 0 <= j < self.entries@.len() implies #[trigger] self.entries@[j]
                        == prev.entries@[if j < i { j } else { j + 1 }] by {}
                    assert(self.wf()) by {
                        assert forall|a: int, b: int|
                            0 <= a < self.entries@.len() && 0 <= b < self.entries@.len() && a != b
                                implies (#[trigger] self.entries@[a]).0@ != (
                            #[trigger] self.entries@[b]).0@ by {
                            let a2 = if a < i { a } else { a + 1 };
                            let b2 = if b < i { b } else { b + 1 };
                            assert(prev.entries@[a2].0@ != prev.entries@[b2].0@);
                        }
                    }
                    assert forall|kk: K::V| #[trigger] self@.dom().contains(kk) == prev@.remove(
                        k@,
                    ).dom().contains(kk) by {
                        if self.has(kk) {
                            let j = self.pos(kk);
                            let j2 = if j < i { j } else { j + 1 };
                            assert(prev.entries@[j2].0@ == kk);
                            assert(j2 != i);
                            assert(prev.entries@[i as int].0@ == k@);
                        }
                        if prev.has(kk) && kk != k@ {
                            let j2 = prev.pos(kk);
                            assert(j2 != i);
                            let j = if j2 < i { j2 } else { j2 - 1 };
                            assert(self.entries@[j].0@ == kk);
                        }
                    }
                    assert forall|kk: K::V| #[trigger] self@.dom().contains(kk) implies self@[kk]
                        == prev@.remove(k@)[kk] by {
                        let j = self.pos(kk);
                        self.lemma_pos(j);
                        let j2 = if j < i { j } else { j + 1 };
                        prev.lemma_pos(j2);
                    }
                    assert(self@ =~= prev@.remove(k@));
                }
                Some(v)
            },
        }
    }
}

} // verus!
