use std::collections::hash_map::Entry;
use std::collections::HashMap;
use std::hash::Hash;
use vstd::prelude::*;
use vstd::std_specs::hash::obeys_key_model;

use crate::linked_value::LinkedValue;
use crate::model::{has_key, inserted, key_index, lemma_key_index, removed, unique_keys, value_of};

verus! {

broadcast use vstd::std_specs::hash::group_hash_axioms;

/// The links of `table` follow `order`, and `index` gives each key's position in it.
pub(crate) open spec fn linked<K, V>(
    table: Map<K, LinkedValue<K, V>>,
    order: Seq<K>,
    index: Map<K, int>,
) -> bool {
    &&& forall|k: K|
        #![trigger table.contains_key(k)]
        #![trigger index.contains_key(k)]
        table.contains_key(k) <==> index.contains_key(k)
    &&& forall|k: K| #[trigger]
        index.contains_key(k) ==> 0 <= index[k] < order.len() && order[index[k]] == k
    &&& forall|i: int|
        0 <= i < order.len() ==> index.contains_key(#[trigger] order[i]) && index[order[i]] == i
    &&& forall|i: int|
        0 <= i < order.len() ==> {
            let node = table[#[trigger] order[i]];
            &&& node.key == order[i]
            &&& node.prev == if i == 0 {
                None
            } else {
                Some(order[i - 1])
            }
            &&& node.next == if i == order.len() - 1 {
                None
            } else {
                Some(order[i + 1])
            }
        }
}

/// Under `linked`, the table holds exactly the keys of `order`, once each.
pub(crate) proof fn lemma_linked_len<K, V>(
    table: Map<K, LinkedValue<K, V>>,
    order: Seq<K>,
    index: Map<K, int>,
)
    requires
        linked(table, order, index),
        table.dom().finite(),
    ensures
        order.no_duplicates(),
        table.dom() == order.to_set(),
        table.dom().len() == order.len(),
{
    assert forall|k: K| table.dom().contains(k) <==> order.to_set().contains(k) by {
        if table.dom().contains(k) {
            assert(order[index[k]] == k);
        }
        if order.to_set().contains(k) {
            let i = choose|i: int| 0 <= i < order.len() && order[i] == k;
            assert(index.contains_key(order[i]));
        }
    }
    assert(table.dom() =~= order.to_set());
    assert forall|i: int, j: int| 0 <= i < order.len() && 0 <= j < order.len() && i != j
        implies order[i] != order[j] by {
        assert(index[order[i]] == i);
        assert(index[order[j]] == j);
    }
    assert(order.no_duplicates());
    order.unique_seq_to_set();
}

/// `node` with its following key replaced by `next`.
pub(crate) open spec fn with_next<K, V>(node: LinkedValue<K, V>, next: Option<K>) -> LinkedValue<K, V> {
    LinkedValue { value: node.value, key: node.key, prev: node.prev, next }
}

/// `node` with its preceding key replaced by `prev`.
pub(crate) open spec fn with_prev<K, V>(node: LinkedValue<K, V>, prev: Option<K>) -> LinkedValue<K, V> {
    LinkedValue { value: node.value, key: node.key, prev, next: node.next }
}

fn set_next<K: Copy + Eq + Hash, V>(
    table: &mut HashMap<K, LinkedValue<K, V>>,
    k: K,
    next: Option<K>,
)
    requires
        obeys_key_model::<K>(),
        old(table)@.contains_key(k),
    ensures
        final(table)@ == old(table)@.insert(k, with_next(old(table)@[k], next)),
{
    let node = table.remove(&k);
    match node {
        Some(node) => {
            table.insert(k, LinkedValue { value: node.value, key: node.key, prev: node.prev, next });
        },
        None => {},
    }
    proof {
        assert(final(table)@ =~= old(table)@.insert(k, with_next(old(table)@[k], next)));
    }
}

fn set_prev<K: Copy + Eq + Hash, V>(
    table: &mut HashMap<K, LinkedValue<K, V>>,
    k: K,
    prev: Option<K>,
)
    requires
        obeys_key_model::<K>(),
        old(table)@.contains_key(k),
    ensures
        final(table)@ == old(table)@.insert(k, with_prev(old(table)@[k], prev)),
{
    let node = table.remove(&k);
    match node {
        Some(node) => {
            table.insert(k, LinkedValue { value: node.value, key: node.key, prev, next: node.next });
        },
        None => {},
    }
    proof {
        assert(final(table)@ =~= old(table)@.insert(k, with_prev(old(table)@[k], prev)));
    }
}

/// Appending a new key `k` after the last entry keeps the links consistent.
proof fn lemma_append_linked<K, V>(
    table: Map<K, LinkedValue<K, V>>,
    order: Seq<K>,
    index: Map<K, int>,
    k: K,
    v: V,
)
    requires
        linked(table, order, index),
        order.len() > 0,
        !table.contains_key(k),
    ensures
        ({
            let last = order.last();
            let t1 = table.insert(k, LinkedValue { value: v, key: k, prev: Some(last), next: None });
            let t2 = t1.insert(last, with_next(t1[last], Some(k)));
            linked(t2, order.push(k), index.insert(k, order.len() as int))
        }),
{
    let n = order.len() as int;
    let last = order.last();
    let t1 = table.insert(k, LinkedValue { value: v, key: k, prev: Some(last), next: None });
    let t2 = t1.insert(last, with_next(t1[last], Some(k)));
    let o2 = order.push(k);
    let i2 = index.insert(k, n);
    assert(index.contains_key(order[n - 1]));
    assert forall|i: int| 0 <= i < o2.len() implies i2.contains_key(#[trigger] o2[i]) && i2[o2[i]]
        == i by {
        if i < n {
            assert(o2[i] == order[i]);
            assert(index.contains_key(order[i]));
        }
    }
    assert forall|i: int| 0 <= i < o2.len() implies {
        let node = t2[#[trigger] o2[i]];
        &&& node.key == o2[i]
        &&& node.prev == if i == 0 {
            None
        } else {
            Some(o2[i - 1])
        }
        &&& node.next == if i == o2.len() - 1 {
            None
        } else {
            Some(o2[i + 1])
        }
    } by {
        if i < n {
            assert(o2[i] == order[i]);
            assert(index.contains_key(order[i]));
            assert(order[i] != k);
            if i < n - 1 {
                assert(index[order[i]] == i);
                assert(index[order[n - 1]] == n - 1);
            }
        }
    }
}

/// The table after the entry at position `i` leaves and its neighbours are joined.
pub(crate) open spec fn unlinked<K, V>(
    table: Map<K, LinkedValue<K, V>>,
    order: Seq<K>,
    i: int,
) -> Map<K, LinkedValue<K, V>> {
    let n = order.len();
    let prev = if i > 0 {
        Some(order[i - 1])
    } else {
        None
    };
    let next = if i + 1 < n {
        Some(order[i + 1])
    } else {
        None
    };
    let t1 = table.remove(order[i]);
    let t2 = if i > 0 {
        t1.insert(order[i - 1], with_next(t1[order[i - 1]], next))
    } else {
        t1
    };
    if i + 1 < n {
        t2.insert(order[i + 1], with_prev(t2[order[i + 1]], prev))
    } else {
        t2
    }
}

/// The key positions after the entry at position `i` leaves.
pub(crate) open spec fn unindexed<K>(index: Map<K, int>, order: Seq<K>, i: int) -> Map<K, int> {
    Map::new(
        |kk: K| index.contains_key(kk) && kk != order[i],
        |kk: K|
            if index[kk] > i {
                index[kk] - 1
            } else {
                index[kk]
            },
    )
}

/// Taking out the entry at position `i` of a table of two or more entries
/// keeps the links consistent.
proof fn lemma_unlink_linked<K, V>(
    table: Map<K, LinkedValue<K, V>>,
    order: Seq<K>,
    index: Map<K, int>,
    i: int,
)
    requires
        linked(table, order, index),
        0 <= i < order.len(),
        order.len() > 1,
    ensures
        linked(unlinked(table, order, i), order.remove(i), unindexed(index, order, i)),
{
    let n = order.len() as int;
    let t2 = unlinked(table, order, i);
    let o2 = order.remove(i);
    let i2 = unindexed(index, order, i);
    let k = order[i];
    assert(index.contains_key(order[i]));
    if i > 0 {
        assert(index.contains_key(order[i - 1]));
        assert(index[order[i - 1]] == i - 1);
    }
    if i + 1 < n {
        assert(index.contains_key(order[i + 1]));
        assert(index[order[i + 1]] == i + 1);
    }
    assert forall|kk: K| #[trigger] i2.contains_key(kk) implies 0 <= i2[kk] < o2.len() && o2[i2[kk]]
        == kk by {
        assert(order[index[kk]] == kk);
        assert(index[kk] != i);
    }
    assert forall|j: int| 0 <= j < o2.len() implies i2.contains_key(#[trigger] o2[j]) && i2[o2[j]]
        == j by {
        if j < i {
            assert(o2[j] == order[j]);
            assert(index.contains_key(order[j]));
        } else {
            assert(o2[j] == order[j + 1]);
            assert(index.contains_key(order[j + 1]));
        }
    }
    assert forall|j: int| 0 <= j < o2.len() implies {
        let node = t2[#[trigger] o2[j]];
        &&& node.key == o2[j]
        &&& node.prev == if j == 0 {
            None
        } else {
            Some(o2[j - 1])
        }
        &&& node.next == if j == o2.len() - 1 {
            None
        } else {
            Some(o2[j + 1])
        }
    } by {
        let jj = if j < i { j } else { j + 1 };
        assert(o2[j] == order[jj]);
        assert(index.contains_key(order[jj]));
        assert(index[order[jj]] == jj);
        if j > 0 {
            let pj = if j - 1 < i { j - 1 } else { j };
            assert(o2[j - 1] == order[pj]);
        }
        if j + 1 < o2.len() {
            let nj = if j + 1 < i { j + 1 } else { j + 2 };
            assert(o2[j + 1] == order[nj]);
        }
    }
}

/// `node` with its two links exchanged.
pub(crate) open spec fn swapped<K, V>(node: LinkedValue<K, V>) -> LinkedValue<K, V> {
    LinkedValue { value: node.value, key: node.key, prev: node.next, next: node.prev }
}

/// The key positions once the order is reversed.
pub(crate) open spec fn reindexed<K>(index: Map<K, int>, n: int) -> Map<K, int> {
    Map::new(|kk: K| index.contains_key(kk), |kk: K| n - 1 - index[kk])
}

/// Exchanging the links of every entry yields the reversed order.
proof fn lemma_reverse_linked<K, V>(
    table: Map<K, LinkedValue<K, V>>,
    swapped_table: Map<K, LinkedValue<K, V>>,
    order: Seq<K>,
    index: Map<K, int>,
)
    requires
        linked(table, order, index),
        swapped_table.dom() == table.dom(),
        forall|m: int|
            0 <= m < order.len() ==> swapped_table[#[trigger] order[m]] == swapped(table[order[m]]),
    ensures
        linked(swapped_table, order.reverse(), reindexed(index, order.len() as int)),
{
    let n = order.len() as int;
    let o2 = order.reverse();
    let i2 = reindexed(index, n);
    assert forall|kk: K| #[trigger] i2.contains_key(kk) implies 0 <= i2[kk] < o2.len() && o2[i2[kk]]
        == kk by {
        assert(order[index[kk]] == kk);
    }
    assert forall|j: int| 0 <= j < o2.len() implies i2.contains_key(#[trigger] o2[j]) && i2[o2[j]]
        == j by {
        assert(o2[j] == order[n - 1 - j]);
        assert(index.contains_key(order[n - 1 - j]));
    }
    assert forall|j: int| 0 <= j < o2.len() implies {
        let node = swapped_table[#[trigger] o2[j]];
        &&& node.key == o2[j]
        &&& node.prev == if j == 0 {
            None
        } else {
            Some(o2[j - 1])
        }
        &&& node.next == if j == o2.len() - 1 {
            None
        } else {
            Some(o2[j + 1])
        }
    } by {
        let m = n - 1 - j;
        assert(o2[j] == order[m]);
        assert(swapped_table[order[m]] == swapped(table[order[m]]));
        if j > 0 {
            assert(o2[j - 1] == order[m + 1]);
        }
        if j + 1 < n {
            assert(o2[j + 1] == order[m - 1]);
        }
    }
}

/// What removing a key from a table did.
pub(crate) enum Removed<V> {
    /// The key was not there; nothing changed.
    Absent,
    /// The entry was taken out and others remain.
    Kept(V),
    /// The table's only entry was taken out: the table must be discarded.
    Emptied(V),
}

/// A table holding at least one entry.
#[verifier::reject_recursive_types(K)]
pub(crate) struct InnerLinkedHashMap<K, V> {
    pub(crate) table: HashMap<K, LinkedValue<K, V>>,
    pub(crate) first_key: K,
    pub(crate) end_key: K,
    pub(crate) order: Ghost<Seq<K>>,
    pub(crate) index: Ghost<Map<K, int>>,
}

impl<K: Copy + Eq + Hash, V> InnerLinkedHashMap<K, V> {
    pub(crate) open spec fn wf(&self) -> bool {
        &&& obeys_key_model::<K>()
        &&& self.order@.len() > 0
        &&& linked(self.table@, self.order@, self.index@)
        &&& self.first_key == self.order@[0]
        &&& self.end_key == self.order@.last()
    }

    /// The entries, oldest first.
    pub(crate) open spec fn entries(&self) -> Seq<(K, V)> {
        self.order@.map_values(|k: K| (k, self.table@[k].value))
    }

    pub(crate) fn with_first_value(k: K, v: V) -> (r: Self)
        requires
            obeys_key_model::<K>(),
        ensures
            r.wf(),
            r.entries() == seq![(k, v)],
    {
        let mut table = HashMap::new();
        table.insert(k, LinkedValue { value: v, key: k, prev: None, next: None });
        let ghost order = seq![k];
        let ghost index = map![k => 0int];
        let r = InnerLinkedHashMap {
            table,
            first_key: k,
            end_key: k,
            order: Ghost(order),
            index: Ghost(index),
        };
        assert(r.entries() =~= seq![(k, v)]);
        r
    }

    /// How the entries relate to the key positions.
    pub(crate) proof fn lemma_entries(&self)
        requires
            self.wf(),
        ensures
            unique_keys(self.entries()),
            self.entries().len() == self.order@.len(),
            forall|k: K|
                #![trigger has_key(self.entries(), k)]
                #![trigger self.table@.contains_key(k)]
                has_key(self.entries(), k) <==> self.table@.contains_key(k),
            forall|k: K|
                #[trigger] self.table@.contains_key(k) ==> key_index(self.entries(), k)
                    == self.index@[k] && value_of(self.entries(), k) == self.table@[k].value,
    {
        let e = self.entries();
        let o = self.order@;
        let ix = self.index@;
        assert forall|i: int, j: int| 0 <= i < e.len() && 0 <= j < e.len() && i != j implies e[i].0
            != e[j].0 by {
            assert(ix[o[i]] == i);
            assert(ix[o[j]] == j);
        }
        assert forall|k: K| #[trigger] has_key(e, k) <==> self.table@.contains_key(k) by {
            if has_key(e, k) {
                let i = choose|i: int| 0 <= i < e.len() && #[trigger] e[i].0 == k;
                assert(ix.contains_key(o[i]));
            }
            if self.table@.contains_key(k) {
                assert(e[ix[k]].0 == k);
            }
        }
        assert forall|k: K| #[trigger] self.table@.contains_key(k) implies key_index(e, k)
            == ix[k] && value_of(e, k) == self.table@[k].value by {
            assert(e[ix[k]].0 == k);
            lemma_key_index(e, ix[k]);
        }
    }

    pub(crate) fn insert(&mut self, k: K, v: V) -> (r: Option<V>)
        requires
            old(self).wf(),
        ensures
            final(self).wf(),
            final(self).entries() == inserted(old(self).entries(), k, v),
            r == if has_key(old(self).entries(), k) {
                Some(value_of(old(self).entries(), k))
            } else {
                None::<V>
            },
    {
        proof {
            self.lemma_entries();
        }
        let ghost e0 = self.entries();
        let found = self.table.remove(&k);
        match found {
            Some(node) => {
                self.table.insert(k, LinkedValue { value: v, key: node.key, prev: node.prev, next: node.next });
                proof {
                    let i = self.index@[k];
                    assert(self.table@ =~= old(self).table@.insert(k, LinkedValue { value: v, ..old(self).table@[k] }));
                    assert(self.entries() =~= e0.update(i, (k, v)));
                }
                Some(node.value)
            },
            None => {
                let last = self.end_key;
                proof {
                    assert(self.table@ =~= old(self).table@);
                    lemma_append_linked(self.table@, self.order@, self.index@, k, v);
                    assert(self.index@.contains_key(self.order@[self.order@.len() - 1]));
                }
                self.table.insert(k, LinkedValue { value: v, key: k, prev: Some(last), next: None });
                set_next(&mut self.table, last, Some(k));
                self.end_key = k;
                let ghost n = self.order@.len() as int;
                self.index = Ghost(self.index@.insert(k, n));
                self.order = Ghost(self.order@.push(k));
                proof {
                    assert(self.entries() =~= e0.push((k, v)));
                }
                None
            },
        }
    }

    pub(crate) fn remove(&mut self, k: &K) -> (r: Removed<V>)
        requires
            old(self).wf(),
        ensures
            match r {
                Removed::Absent => {
                    &&& !has_key(old(self).entries(), *k)
                    &&& final(self).wf()
                    &&& final(self).entries() == old(self).entries()
                },
                Removed::Kept(v) => {
                    &&& has_key(old(self).entries(), *k)
                    &&& v == value_of(old(self).entries(), *k)
                    &&& final(self).wf()
                    &&& final(self).entries() == removed(old(self).entries(), *k)
                },
                Removed::Emptied(v) => {
                    &&& has_key(old(self).entries(), *k)
                    &&& v == value_of(old(self).entries(), *k)
                    &&& old(self).entries().len() == 1
                },
            },
    {
        proof {
            self.lemma_entries();
        }
        let ghost e0 = self.entries();
        let ghost t0 = self.table@;
        let found = self.table.remove(k);
        match found {
            None => {
                proof {
                    assert(self.table@ =~= t0);
                    assert(self.entries() =~= e0);
                }
                Removed::Absent
            },
            Some(node) => {
                let ghost i = self.index@[*k];
                let ghost n = self.order@.len() as int;
                proof {
                    assert(self.order@[i] == *k);
                    if i > 0 {
                        assert(self.index@.contains_key(self.order@[i - 1]));
                        assert(self.index@[self.order@[i - 1]] == i - 1);
                    }
                    if i + 1 < n {
                        assert(self.index@.contains_key(self.order@[i + 1]));
                        assert(self.index@[self.order@[i + 1]] == i + 1);
                    }
                    lemma_key_index(e0, i);
                    assert(e0[i].0 == *k);
                }
                match (node.prev, node.next) {
                    (None, None) => {
                        return Removed::Emptied(node.value);
                    },
                    (None, Some(next)) => {
                        set_prev(&mut self.table, next, None);
                        self.first_key = next;
                    },
                    (Some(prev), None) => {
                        set_next(&mut self.table, prev, None);
                        self.end_key = prev;
                    },
                    (Some(prev), Some(next)) => {
                        set_next(&mut self.table, prev, Some(next));
                        set_prev(&mut self.table, next, Some(prev));
                    },
                }
                proof {
                    lemma_unlink_linked(t0, self.order@, self.index@, i);
                    assert(self.table@ =~= unlinked(t0, self.order@, i));
                }
                self.index = Ghost(unindexed(self.index@, self.order@, i));
                self.order = Ghost(self.order@.remove(i));
                proof {
                    assert(self.entries() =~= e0.remove(i));
                }
                Removed::Kept(node.value)
            },
        }
    }

    /// Reverses the order of the entries in place.
    pub(crate) fn reverse(&mut self)
        requires
            old(self).wf(),
        ensures
            final(self).wf(),
            final(self).entries() == old(self).entries().reverse(),
    {
        let ghost t0 = self.table@;
        let ghost o = self.order@;
        let ghost ix = self.index@;
        let ghost n = o.len() as int;
        let mut cur: Option<K> = Some(self.first_key);
        let ghost mut j: int = 0;
        while cur.is_some()
            invariant
                obeys_key_model::<K>(),
                linked(t0, o, ix),
                n == o.len(),
                0 <= j <= n,
                self.order@ == o,
                self.index@ == ix,
                self.first_key == o[0],
                self.end_key == o.last(),
                self.table@.dom() == t0.dom(),
                forall|m: int|
                    0 <= m < n ==> self.table@[#[trigger] o[m]] == if m < j {
                        swapped(t0[o[m]])
                    } else {
                        t0[o[m]]
                    },
                cur == if j < n {
                    Some(o[j])
                } else {
                    None::<K>
                },
            decreases n - j,
        {
            let c = cur.unwrap();
            proof {
                assert(ix.contains_key(o[j]));
                assert(self.table@[o[j]] == t0[o[j]]);
            }
            let ghost before = self.table@;
            let node = self.table.remove(&c);
            match node {
                Some(node) => {
                    cur = node.next;
                    self.table.insert(
                        c,
                        LinkedValue { value: node.value, key: node.key, prev: node.next, next: node.prev },
                    );
                },
                None => {},
            }
            proof {
                assert(self.table@ =~= before.insert(o[j], swapped(before[o[j]])));
                assert forall|m: int| 0 <= m < n && m != j implies o[m] != o[j] by {
                    assert(ix[o[m]] == m);
                    assert(ix[o[j]] == j);
                }
                j = j + 1;
            }
        }
        let first = self.first_key;
        self.first_key = self.end_key;
        self.end_key = first;
        proof {
            lemma_reverse_linked(t0, self.table@, o, ix);
        }
        self.index = Ghost(reindexed(ix, n));
        self.order = Ghost(o.reverse());
        proof {
            assert(self.entries() =~= old(self).entries().reverse());
        }
    }

    pub(crate) fn get(&self, k: &K) -> (r: Option<&V>)
        requires
            self.wf(),
        ensures
            match r {
                Some(v) => has_key(self.entries(), *k) && *v == value_of(self.entries(), *k),
                None => !has_key(self.entries(), *k),
            },
    {
        proof {
            self.lemma_entries();
        }
        match self.table.get(k) {
            Some(node) => Some(&node.value),
            None => None,
        }
    }

    pub(crate) fn contains_key(&self, k: &K) -> (r: bool)
        requires
            self.wf(),
        ensures
            r == has_key(self.entries(), *k),
    {
        proof {
            self.lemma_entries();
        }
        self.table.contains_key(k)
    }

    pub(crate) fn get_mut(&mut self, k: &K) -> (r: Option<&mut V>)
        requires
            old(self).wf(),
        ensures
            match r {
                Some(v) => {
                    &&& has_key(old(self).entries(), *k)
                    &&& *v == value_of(old(self).entries(), *k)
                    &&& final(self).wf()
                    &&& final(self).entries() == old(self).entries().update(
                        key_index(old(self).entries(), *k),
                        (*k, *final(v)),
                    )
                },
                None => {
                    &&& !has_key(old(self).entries(), *k)
                    &&& final(self).wf()
                    &&& final(self).entries() == old(self).entries()
                },
            },
    {
        proof {
            self.lemma_entries();
        }
        match self.table.entry(*k) {
            Entry::Occupied(e) => {
                let node = e.into_mut();
                Some(&mut node.value)
            },
            Entry::Vacant(_) => None,
        }
    }

    pub(crate) fn len(&self) -> (r: usize)
        requires
            self.wf(),
        ensures
            r == self.entries().len(),
    {
        proof {
            lemma_linked_len(self.table@, self.order@, self.index@);
        }
        self.table.len()
    }
}

} // verus!
