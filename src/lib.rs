//! A hash map that remembers the order in which its keys were first inserted.
//!
//! Each entry carries the keys of its neighbours in that order, so that
//! lookups, insertions and removals stay constant time while iteration runs
//! from the oldest entry to the newest. The map is modelled as the sequence of
//! its `(key, value)` pairs, oldest first, with no key twice.
use std::hash::Hash;
use vstd::prelude::*;
use vstd::std_specs::hash::obeys_key_model;

mod linked_value;
pub use linked_value::LinkedValue;

mod inner_map;
use inner_map::{InnerLinkedHashMap, Removed};

pub mod model;
use model::{has_key, inserted, key_index, removed, unique_keys, value_of};

pub mod iters;
pub use iters::{IntoIter, Iter};

pub mod laws;






verus! {

broadcast use vstd::std_specs::hash::group_hash_axioms;

/// An insertion-ordered hash map. An empty map holds no table at all.
#[verifier::reject_recursive_types(K)]
pub struct LinkedHashMap<K, V> {
    inner: Option<InnerLinkedHashMap<K, V>>,
}

impl<K: Copy + Eq + Hash, V> View for LinkedHashMap<K, V> {
    type V = Seq<(K, V)>;

    /// The entries, oldest first.
    closed spec fn view(&self) -> Seq<(K, V)> {
        match self.inner {
            Some(t) => t.entries(),
            None => Seq::empty(),
        }
    }
}

impl<K: Copy + Eq + Hash, V> LinkedHashMap<K, V> {
    /// The map's internal links are consistent, and the key type hashes and
    /// compares as a key must.
    pub closed spec fn wf(&self) -> bool {
        &&& obeys_key_model::<K>()
        &&& match self.inner {
            Some(t) => t.wf(),
            None => true,
        }
    }

    /// A well-formed map holds each key once.
    pub proof fn lemma_unique_keys(&self)
        requires
            self.wf(),
        ensures
            unique_keys(self@),
    {
        match self.inner {
            Some(t) => t.lemma_entries(),
            None => {},
        }
    }

    pub fn new() -> (r: Self)
        requires
            obeys_key_model::<K>(),
        ensures
            r.wf(),
            r@ == Seq::<(K, V)>::empty(),
    {
        LinkedHashMap { inner: None }
    }

    /// Inserts `v` under `k`. An existing key keeps its place and returns its
    /// previous value; a new key becomes the newest entry.
    pub fn insert(&mut self, k: K, v: V) -> (r: Option<V>)
        requires
            old(self).wf(),
        ensures
            final(self).wf(),
            final(self)@ == inserted(old(self)@, k, v),
            r == if has_key(old(self)@, k) {
                Some(value_of(old(self)@, k))
            } else {
                None::<V>
            },
    {
        match &mut self.inner {
            Some(table) => table.insert(k, v),
            None => {
                self.inner = Some(InnerLinkedHashMap::with_first_value(k, v));
                None
            },
        }
    }

    /// Reverses the iteration order in place.
    pub fn reverse(&mut self)
        requires
            old(self).wf(),
        ensures
            final(self).wf(),
            final(self)@ == old(self)@.reverse(),
    {
        match &mut self.inner {
            Some(table) => table.reverse(),
            None => {
                proof {
                    assert(old(self)@.reverse() =~= Seq::<(K, V)>::empty());
                }
            },
        }
    }

    pub fn get(&self, k: &K) -> (r: Option<&V>)
        requires
            self.wf(),
        ensures
            match r {
                Some(v) => has_key(self@, *k) && *v == value_of(self@, *k),
                None => !has_key(self@, *k),
            },
    {
        match &self.inner {
            Some(table) => table.get(k),
            None => None,
        }
    }

    /// A mutable reference to the value under `k`; whatever is written
    /// through it replaces that value, in place.
    pub fn get_mut(&mut self, k: &K) -> (r: Option<&mut V>)
        requires
            old(self).wf(),
        ensures
            match r {
                Some(v) => {
                    &&& has_key(old(self)@, *k)
                    &&& *v == value_of(old(self)@, *k)
                    &&& final(self).wf()
                    &&& final(self)@ == old(self)@.update(key_index(old(self)@, *k), (*k, *final(v)))
                },
                None => {
                    &&& !has_key(old(self)@, *k)
                    &&& final(self).wf()
                    &&& final(self)@ == old(self)@
                },
            },
    {
        match &mut self.inner {
            Some(table) => table.get_mut(k),
            None => None,
        }
    }

    pub fn contains_key(&self, k: &K) -> (r: bool)
        requires
            self.wf(),
        ensures
            r == has_key(self@, *k),
    {
        match &self.inner {
            Some(table) => table.contains_key(k),
            None => false,
        }
    }

    /// Removes the entry of `k` and returns its value; the other entries keep
    /// their order. Removing the last entry leaves the map empty.
    pub fn remove(&mut self, k: &K) -> (r: Option<V>)
        requires
            old(self).wf(),
        ensures
            final(self).wf(),
            final(self)@ == removed(old(self)@, *k),
            r == if has_key(old(self)@, *k) {
                Some(value_of(old(self)@, *k))
            } else {
                None::<V>
            },
    {
        let ghost before = self@;
        match &mut self.inner {
            Some(table) => match table.remove(k) {
                Removed::Absent => None,
                Removed::Kept(v) => Some(v),
                Removed::Emptied(v) => {
                    self.inner = None;
                    proof {
                        let i = key_index(before, *k);
                        assert(0 <= i < before.len() && before[i].0 == *k);
                        assert(removed(before, *k) =~= Seq::<(K, V)>::empty());
                    }
                    Some(v)
                },
            },
            None => None,
        }
    }

    pub fn len(&self) -> (r: usize)
        requires
            self.wf(),
        ensures
            r == self@.len(),
    {
        match &self.inner {
            Some(table) => table.len(),
            None => 0,
        }
    }

    /// A borrowing walk over the entries, oldest first.
    pub fn iter(&self) -> (r: Iter<'_, K, V>)
        requires
            self.wf(),
        ensures
            r.wf(),
            r.remaining() == self@,
    {
        Iter::from_linked_hash_map(self)
    }

    /// Consumes the map into a walk that yields its entries by value, oldest first.
    pub fn into_iter(self) -> (r: IntoIter<K, V>)
        requires
            self.wf(),
        ensures
            r.wf(),
            r.remaining() == self@,
    {
        IntoIter::from_linked_hash_map(self)
    }

    pub fn is_empty(&self) -> (r: bool)
        requires
            self.wf(),
        ensures
            r == (self@.len() == 0),
    {
        self.inner.is_none()
    }
}

} // verus!
