use std::collections::HashMap;
use std::hash::Hash;
use vstd::prelude::*;
use vstd::std_specs::hash::obeys_key_model;

use crate::inner_map::lemma_linked_len;
use crate::linked_value::LinkedValue;
use crate::LinkedHashMap;

verus! {

broadcast use vstd::std_specs::hash::group_hash_axioms;

/// A borrowing walk over a map's entries, oldest first.
#[verifier::reject_recursive_types(K)]
pub struct Iter<'a, K, V> {
    map: &'a LinkedHashMap<K, V>,
    next_key: Option<K>,
    pos: Ghost<int>,
}

impl<'a, K: Copy + Eq + Hash, V> Iter<'a, K, V> {
    pub closed spec fn wf(&self) -> bool {
        &&& self.map.wf()
        &&& 0 <= self.pos@ <= self.map@.len()
        &&& self.next_key == if self.pos@ < self.map@.len() {
            Some(self.map@[self.pos@].0)
        } else {
            None::<K>
        }
    }

    /// The entries not yet yielded, in the order they will come.
    pub closed spec fn remaining(&self) -> Seq<(K, V)> {
        self.map@.skip(self.pos@)
    }

    pub(crate) fn from_linked_hash_map(map: &'a LinkedHashMap<K, V>) -> (r: Self)
        requires
            map.wf(),
        ensures
            r.wf(),
            r.remaining() == map@,
    {
        let next_key = match &map.inner {
            Some(table) => Some(table.first_key),
            None => None,
        };
        let r = Iter { map, next_key, pos: Ghost(0) };
        proof {
            assert(r.remaining() =~= map@);
        }
        r
    }

    /// Yields the next entry's key and a reference to its value, or `None`
    /// once every entry has been yielded.
    pub fn next(&mut self) -> (r: Option<(K, &'a V)>)
        requires
            old(self).wf(),
        ensures
            final(self).wf(),
            match r {
                Some(e) => {
                    &&& old(self).remaining().len() > 0
                    &&& (e.0, *e.1) == old(self).remaining()[0]
                    &&& final(self).remaining() == old(self).remaining().drop_first()
                },
                None => {
                    &&& old(self).remaining().len() == 0
                    &&& final(self).remaining() == old(self).remaining()
                },
            },
    {
        let map: &'a LinkedHashMap<K, V> = self.map;
        match self.next_key {
            None => None,
            Some(k) => match &map.inner {
                Some(table) => {
                    proof {
                        let i = self.pos@;
                        assert(table.order@[i] == k);
                        assert(table.index@.contains_key(table.order@[i]));
                        if i + 1 < table.order@.len() {
                            assert(map@[i + 1].0 == table.order@[i + 1]);
                        }
                    }
                    match table.table.get(&k) {
                        Some(node) => {
                            self.next_key = node.next;
                            self.pos = Ghost(self.pos@ + 1);
                            proof {
                                assert(final(self).remaining() =~= old(self).remaining().drop_first());
                            }
                            Some((k, &node.value))
                        },
                        None => None,
                    }
                },
                None => None,
            },
        }
    }
}

/// A consuming walk over a map's entries, oldest first. Each step takes the
/// entry out of the table.
#[verifier::reject_recursive_types(K)]
pub struct IntoIter<K, V> {
    table: HashMap<K, LinkedValue<K, V>>,
    next_key: Option<K>,
    rest: Ghost<Seq<K>>,
}

impl<K: Copy + Eq + Hash, V> IntoIter<K, V> {
    pub closed spec fn wf(&self) -> bool {
        let rest = self.rest@;
        &&& obeys_key_model::<K>()
        &&& rest.no_duplicates()
        &&& forall|i: int|
            0 <= i < rest.len() ==> {
                &&& self.table@.contains_key(#[trigger] rest[i])
                &&& self.table@[rest[i]].next == if i == rest.len() - 1 {
                    None
                } else {
                    Some(rest[i + 1])
                }
            }
        &&& self.next_key == if rest.len() > 0 {
            Some(rest[0])
        } else {
            None::<K>
        }
    }

    /// The entries not yet yielded, in the order they will come.
    pub closed spec fn remaining(&self) -> Seq<(K, V)> {
        self.rest@.map_values(|k: K| (k, self.table@[k].value))
    }

    pub(crate) fn from_linked_hash_map(map: LinkedHashMap<K, V>) -> (r: Self)
        requires
            map.wf(),
        ensures
            r.wf(),
            r.remaining() == map@,
    {
        match map.inner {
            Some(inner) => {
                proof {
                    lemma_linked_len(inner.table@, inner.order@, inner.index@);
                }
                IntoIter { table: inner.table, next_key: Some(inner.first_key), rest: inner.order }
            },
            None => {
                let r = IntoIter { table: HashMap::new(), next_key: None, rest: Ghost(Seq::empty()) };
                proof {
                    assert(r.remaining() =~= Seq::<(K, V)>::empty());
                }
                r
            },
        }
    }

    /// Drains every entry that is left, oldest first, into a vector.
    pub fn collect_vec(self) -> (r: Vec<(K, V)>)
        requires
            self.wf(),
        ensures
            r@ == self.remaining(),
    {
        let mut it = self;
        let mut out: Vec<(K, V)> = Vec::new();
        loop
            invariant
                it.wf(),
                out@ + it.remaining() == self.remaining(),
            decreases it.remaining().len(),
        {
            match it.next() {
                Some(e) => {
                    out.push(e);
                    proof {
                        assert(out@ + it.remaining() =~= self.remaining());
                    }
                },
                None => {
                    proof {
                        assert(out@ =~= self.remaining());
                    }
                    return out;
                },
            }
        }
    }

    /// Takes out and yields the next entry, or `None` once the table is drained.
    pub fn next(&mut self) -> (r: Option<(K, V)>)
        requires
            old(self).wf(),
        ensures
            final(self).wf(),
            match r {
                Some(e) => {
                    &&& old(self).remaining().len() > 0
                    &&& e == old(self).remaining()[0]
                    &&& final(self).remaining() == old(self).remaining().drop_first()
                },
                None => {
                    &&& old(self).remaining().len() == 0
                    &&& final(self).remaining() == old(self).remaining()
                },
            },
    {
        match self.next_key {
            None => None,
            Some(k) => {
                let ghost rest = self.rest@;
                proof {
                    assert(self.table@.contains_key(rest[0]));
                }
                match self.table.remove(&k) {
                    Some(node) => {
                        self.next_key = node.next;
                        self.rest = Ghost(rest.drop_first());
                        proof {
                            assert forall|i: int| 1 <= i < rest.len() implies rest[i] != k by {
                                assert(rest[0] == k);
                            }
                            assert(self.rest@.no_duplicates());
                            assert forall|i: int| 0 <= i < self.rest@.len() implies self.table@.contains_key(
                                #[trigger] self.rest@[i],
                            ) && self.table@[self.rest@[i]].next == if i == self.rest@.len() - 1 {
                                None
                            } else {
                                Some(self.rest@[i + 1])
                            } by {
                                assert(self.rest@[i] == rest[i + 1]);
                                assert(self.table@.contains_key(rest[i + 1]));
                            }
                            assert(final(self).remaining() =~= old(self).remaining().drop_first());
                        }
                        Some((k, node.value))
                    },
                    None => None,
                }
            },
        }
    }
}

} // verus!
