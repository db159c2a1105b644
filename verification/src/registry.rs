//! Node factories registered by name, for creating nodes from a type name
//! known only at run time.

use vstd::prelude::*;
use crate::assoc::{key_seq, AssocMap, MapKey};

verus! {

impl MapKey for String {
    fn same_key(&self, other: &Self) -> (r: bool) {
        *self == *other
    }

    fn copy_key(&self) -> (r: Self) {
        self.clone()
    }
}

/// Hands out a name for the rest of the process through `String::leak`,
/// which gives back the characters of the string it consumes.
#[verifier::external_body]
fn leak_name(name: String) -> (r: &'static str)
    ensures
        r@ == name@,
{
    name.leak()
}

/// Registrations by name; `E` is what one carries (a factory and its
/// metadata). A name given as an owned string is turned into a
/// `&'static str` once and remembered, so that registering it again, or
/// putting back a registration that was taken out, reuses that text.
pub struct FactoryRegistry<E> {
    entries: AssocMap<String, (&'static str, E)>,
    leaked_names: AssocMap<String, &'static str>,
}

impl<E> FactoryRegistry<E> {
    /// Each registration is stored under its own name, and each remembered
    /// text spells the name it is kept under.
    pub closed spec fn wf(&self) -> bool {
        &&& self.entries.wf()
        &&& self.leaked_names.wf()
        &&& forall|k: Seq<char>| #[trigger] self.entries@.dom().contains(k) ==> self.entries@[k].0@ == k
        &&& forall|k: Seq<char>| #[trigger] self.leaked_names@.dom().contains(k) ==> self.leaked_names@[k]@ == k
    }

    /// The registrations by name.
    pub closed spec fn entry_map(&self) -> Map<Seq<char>, E> {
        self.entries@.map_values(|v: (&'static str, E)| v.1)
    }

    /// The names ever registered as owned strings.
    pub closed spec fn owned_names(&self) -> Set<Seq<char>> {
        self.leaked_names@.dom()
    }

    /// `self` is `prev` after taking out the registration of `name`,
    /// which `r` holds when there was one.
    pub open spec fn unregistered(&self, prev: &Self, name: Seq<char>, r: Option<E>) -> bool {
        &&& r == if prev.entry_map().dom().contains(name) {
            Some(prev.entry_map()[name])
        } else {
            None::<E>
        }
        &&& self.entry_map() == prev.entry_map().remove(name)
        &&& self.owned_names() == prev.owned_names()
    }

    /// `self` is `prev` after putting `entry` back under `name`: this
    /// succeeds exactly when the name is registered or was registered as
    /// an owned string, and a refusal hands the entry back.
    pub open spec fn restored(&self, prev: &Self, name: Seq<char>, entry: E, r: Result<(), E>) -> bool {
        &&& r is Ok <==> (prev.entry_map().dom().contains(name) || prev.owned_names().contains(name))
        &&& r is Ok ==> self.entry_map() == prev.entry_map().insert(name, entry)
        &&& r matches Err(e) ==> e == entry && self.entry_map() == prev.entry_map()
        &&& self.owned_names() == prev.owned_names()
    }

    /// An empty registry.
    pub fn new() -> (r: Self)
        ensures
            r.wf(),
            r.entry_map() == Map::<Seq<char>, E>::empty(),
            r.owned_names() == Set::<Seq<char>>::empty(),
    {
        let r = FactoryRegistry { entries: AssocMap::new(), leaked_names: AssocMap::new() };
        assert(r.entry_map() =~= Map::<Seq<char>, E>::empty());
        r
    }

    /// Registers `entry` under a name that lives as long as the program,
    /// replacing any registration of that name.
    pub fn register_factory_with_name(&mut self, name: &'static str, entry: E)
        requires
            old(self).wf(),
        ensures
            final(self).wf(),
            final(self).entry_map() == old(self).entry_map().insert(name@, entry),
            final(self).owned_names() == old(self).owned_names(),
    {
        self.entries.insert(name.to_owned(), (name, entry));
        assert(self.entry_map() =~= old(self).entry_map().insert(name@, entry));
    }

    /// Registers `entry` under a name built at run time, replacing any
    /// registration of that name; the name is remembered from then on.
    pub fn register_factory_with_name_owned(&mut self, name: String, entry: E)
        requires
            old(self).wf(),
        ensures
            final(self).wf(),
            final(self).entry_map() == old(self).entry_map().insert(name@, entry),
            final(self).owned_names() == old(self).owned_names().insert(name@),
    {
        let key: &'static str = match self.leaked_names.get(&name) {
            Some(k) => *k,
            None => {
                let leaked = leak_name(name.clone());
                self.leaked_names.insert(name.clone(), leaked);
                leaked
            },
        };
        self.entries.insert(name, (key, entry));
        assert(self.entry_map() =~= old(self).entry_map().insert(name@, entry));
        assert(self.owned_names() =~= old(self).owned_names().insert(name@));
    }

    /// Takes out the registration of `name`, if there is one; the name
    /// stays remembered.
    pub fn unregister_factory_by_name(&mut self, name: &str) -> (r: Option<E>)
        requires
            old(self).wf(),
        ensures
            final(self).wf(),
            final(self).unregistered(&*old(self), name@, r),
    {
        let key = name.to_owned();
        let r = match self.entries.remove(&key) {
            Some(v) => Some(v.1),
            None => None,
        };
        assert(self.entry_map() =~= old(self).entry_map().remove(name@));
        r
    }

    /// Puts `entry` back under `name`. This succeeds when `name` is
    /// registered now or was ever registered as an owned string; otherwise
    /// the entry is handed back and nothing changes.
    pub fn restore_factory_registration(&mut self, name: &str, entry: E) -> (r: Result<(), E>)
        requires
            old(self).wf(),
        ensures
            final(self).wf(),
            final(self).restored(&*old(self), name@, entry, r),
    {
        let owned = name.to_owned();
        let key: Option<&'static str> = match self.entries.get(&owned) {
            Some(v) => Some(v.0),
            None => match self.leaked_names.get(&owned) {
                Some(k) => Some(*k),
                None => None,
            },
        };
        match key {
            Some(k) => {
                self.entries.insert(owned, (k, entry));
                assert(self.entry_map() =~= old(self).entry_map().insert(name@, entry));
                Ok(())
            },
            None => Err(entry),
        }
    }

    /// The registration of `name`, if there is one.
    pub fn factory_meta_by_name(&self, name: &str) -> (r: Option<&E>)
        requires
            self.wf(),
        ensures
            r == if self.entry_map().dom().contains(name@) {
                Some(&self.entry_map()[name@])
            } else {
                None::<&E>
            },
    {
        match self.entries.get(&name.to_owned()) {
            Some(v) => Some(&v.1),
            None => None,
        }
    }

    /// Whether `name` is registered.
    pub fn is_registered(&self, name: &str) -> (r: bool)
        requires
            self.wf(),
        ensures
            r == self.entry_map().dom().contains(name@),
    {
        self.entries.contains_key(&name.to_owned())
    }

    /// Whether a factory is registered under `name`.
    pub fn has_factory(&self, name: &str) -> (r: bool)
        requires
            self.wf(),
        ensures
            r == self.entry_map().dom().contains(name@),
    {
        self.is_registered(name)
    }

    /// Every registered name once.
    pub fn registered_names(&self) -> (r: Vec<&'static str>)
        requires
            self.wf(),
        ensures
            key_seq(r@).no_duplicates(),
            key_seq(r@).to_set() == self.entry_map().dom(),
    {
        proof {
            self.entries.lemma_entries();
        }
        let mut r: Vec<&'static str> = Vec::new();
        let mut i: usize = 0;
        while i < self.entries.len()
            invariant
                self.wf(),
                i <= self.entries.spec_len(),
                r@.len() == i,
                forall|j: int| 0 <= j < i ==> (#[trigger] r@[j])@ == self.entries.key_at(j),
            decreases self.entries.spec_len() - i,
        {
            proof {
                self.entries.lemma_entries();
            }
            let v = self.entries.value(i);
            assert(self.entries@.dom().contains(self.entries.key_at(i as int)));
            assert(v.0@ == self.entries.key_at(i as int));
            r.push(v.0);
            i = i + 1;
        }
        proof {
            self.entries.lemma_entries();
            let ks = key_seq(r@);
            assert forall|a: int, b: int| 0 <= a < ks.len() && 0 <= b < ks.len() && a != b implies ks[a]
                != ks[b] by {
                assert(self.entries.key_at(a) != self.entries.key_at(b));
            }
            assert forall|k: Seq<char>| ks.to_set().contains(k) implies self.entry_map().dom().contains(k) by {
                let j = choose|j: int| 0 <= j < ks.len() && ks[j] == k;
                assert(ks[j] == self.entries.key_at(j));
            }
            assert forall|k: Seq<char>| self.entry_map().dom().contains(k) implies ks.to_set().contains(k) by {
                let j = choose|j: int| 0 <= j < self.entries.spec_len() && #[trigger] self.entries.key_at(j) == k;
                assert(ks[j] == k);
            }
            assert(ks.to_set() =~= self.entry_map().dom());
        }
        r
    }
}

} // verus!
