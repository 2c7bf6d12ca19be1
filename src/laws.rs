use vstd::prelude::*;

use crate::model::{
    has_key, inserted, key_index, keys_of, lemma_key_index, removed, unique_keys, value_of,
};

verus! {

/// `s` after inserting every pair of `e`, first to last.
pub open spec fn insert_all<K, V>(s: Seq<(K, V)>, e: Seq<(K, V)>) -> Seq<(K, V)>
    decreases e.len(),
{
    if e.len() == 0 {
        s
    } else {
        inserted(insert_all(s, e.drop_last()), e.last().0, e.last().1)
    }
}

/// `s` after removing every key of `ks`, first to last.
pub open spec fn remove_all<K, V>(s: Seq<(K, V)>, ks: Seq<K>) -> Seq<(K, V)>
    decreases ks.len(),
{
    if ks.len() == 0 {
        s
    } else {
        remove_all(removed(s, ks[0]), ks.drop_first())
    }
}

/// Inserting keeps keys unique and touches no other key. An existing key keeps
/// its place and takes the new value; a new key comes last.
pub proof fn lemma_inserted<K, V>(s: Seq<(K, V)>, k: K, v: V)
    requires
        unique_keys(s),
    ensures
        unique_keys(inserted(s, k, v)),
        has_key(inserted(s, k, v), k),
        value_of(inserted(s, k, v), k) == v,
        has_key(s, k) ==> keys_of(inserted(s, k, v)) == keys_of(s),
        has_key(s, k) ==> key_index(inserted(s, k, v), k) == key_index(s, k),
        !has_key(s, k) ==> keys_of(inserted(s, k, v)) == keys_of(s).push(k),
        forall|k2: K|
            k2 != k ==> (#[trigger] has_key(inserted(s, k, v), k2) <==> has_key(s, k2)),
        forall|k2: K|
            k2 != k && has_key(s, k2) ==> #[trigger] value_of(inserted(s, k, v), k2) == value_of(
                s,
                k2,
            ),
        forall|k2: K|
            k2 != k && has_key(s, k2) ==> #[trigger] key_index(inserted(s, k, v), k2) == key_index(
                s,
                k2,
            ),
        !has_key(s, k) ==> key_index(inserted(s, k, v), k) == s.len(),
{
    let r = inserted(s, k, v);
    if has_key(s, k) {
        let i = key_index(s, k);
        assert(s[i].0 == k);
        assert(keys_of(r) =~= keys_of(s));
        lemma_key_index(r, i);
    } else {
        assert(keys_of(r) =~= keys_of(s).push(k));
        lemma_key_index(r, s.len() as int);
    }
    assert forall|k2: K| k2 != k implies (#[trigger] has_key(r, k2) <==> has_key(s, k2)) by {
        if has_key(s, k2) {
            let j = key_index(s, k2);
            assert(r[j].0 == k2);
        }
        if has_key(r, k2) {
            let j = key_index(r, k2);
            assert(s[j].0 == k2);
        }
    }
    assert forall|k2: K| k2 != k && has_key(s, k2) implies #[trigger] key_index(r, k2) == key_index(
        s,
        k2,
    ) by {
        let j = key_index(s, k2);
        assert(s[j].0 == k2);
        lemma_key_index(s, j);
        lemma_key_index(r, j);
    }
    assert forall|k2: K| k2 != k && has_key(s, k2) implies #[trigger] value_of(r, k2) == value_of(
        s,
        k2,
    ) by {
        let j = key_index(s, k2);
        assert(s[j].0 == k2);
        lemma_key_index(s, j);
        lemma_key_index(r, j);
    }
}

/// Removing keeps keys unique, takes out exactly the entry of `k`, if any,
/// and touches no other key.
pub proof fn lemma_removed<K, V>(s: Seq<(K, V)>, k: K)
    requires
        unique_keys(s),
    ensures
        unique_keys(removed(s, k)),
        !has_key(removed(s, k), k),
        removed(s, k).len() == if has_key(s, k) {
            s.len() - 1
        } else {
            s.len() as int
        },
        forall|k2: K| k2 != k ==> (#[trigger] has_key(removed(s, k), k2) <==> has_key(s, k2)),
        forall|k2: K|
            k2 != k && has_key(s, k2) ==> #[trigger] value_of(removed(s, k), k2) == value_of(s, k2),
{
    let r = removed(s, k);
    if has_key(s, k) {
        let i = key_index(s, k);
        assert(s[i].0 == k);
        assert forall|k2: K| k2 != k implies (#[trigger] has_key(r, k2) <==> has_key(s, k2)) by {
            if has_key(s, k2) {
                let j = key_index(s, k2);
                assert(s[j].0 == k2);
                if j < i {
                    assert(r[j].0 == k2);
                } else {
                    assert(r[j - 1].0 == k2);
                }
            }
            if has_key(r, k2) {
                let j = key_index(r, k2);
                if j < i {
                    assert(s[j].0 == k2);
                } else {
                    assert(s[j + 1].0 == k2);
                }
            }
        }
        assert forall|k2: K| k2 != k && has_key(s, k2) implies #[trigger] value_of(r, k2)
            == value_of(s, k2) by {
            let j = key_index(s, k2);
            assert(s[j].0 == k2);
            lemma_key_index(s, j);
            if j < i {
                lemma_key_index(r, j);
            } else {
                lemma_key_index(r, j - 1);
            }
        }
        if has_key(r, k) {
            let j = key_index(r, k);
            if j < i {
                assert(s[j].0 == k);
            } else {
                assert(s[j + 1].0 == k);
            }
        }
    }
}

/// Inserting pairs whose keys are all distinct into an empty map gives
/// exactly those pairs, in the order they were inserted.
pub proof fn lemma_distinct_inserts_keep_order<K, V>(e: Seq<(K, V)>)
    requires
        unique_keys(e),
    ensures
        insert_all(Seq::empty(), e) == e,
    decreases e.len(),
{
    if e.len() > 0 {
        let front = e.drop_last();
        assert(unique_keys(front));
        lemma_distinct_inserts_keep_order(front);
        if has_key(front, e.last().0) {
            let j = key_index(front, e.last().0);
            assert(e[j].0 == e[e.len() - 1].0);
        }
        assert(e =~= front.push(e.last()));
    }
}

/// Inserting any pairs into an empty map leaves each key once, and the value
/// under a key is the one inserted with it last.
pub proof fn lemma_last_insert_wins<K, V>(e: Seq<(K, V)>, j: int)
    requires
        0 <= j < e.len(),
        forall|m: int| j < m < e.len() ==> e[m].0 != e[j].0,
    ensures
        unique_keys(insert_all(Seq::empty(), e)),
        has_key(insert_all(Seq::empty(), e), e[j].0),
        value_of(insert_all(Seq::empty(), e), e[j].0) == e[j].1,
    decreases e.len(),
{
    lemma_insert_all_unique(e);
    let front = e.drop_last();
    let k = e[j].0;
    lemma_insert_all_unique(front);
    lemma_inserted(insert_all(Seq::empty(), front), e.last().0, e.last().1);
    if j < e.len() - 1 {
        lemma_last_insert_wins(front, j);
        assert(e.last().0 != k);
    }
}

/// Inserting any pairs into an empty map leaves each key once.
pub proof fn lemma_insert_all_unique<K, V>(e: Seq<(K, V)>)
    ensures
        unique_keys(insert_all(Seq::empty(), e)),
    decreases e.len(),
{
    if e.len() > 0 {
        lemma_insert_all_unique(e.drop_last());
        lemma_inserted(insert_all(Seq::empty(), e.drop_last()), e.last().0, e.last().1);
    }
}

/// After inserting any pairs into an empty map, its keys are those of the pairs.
pub proof fn lemma_insert_all_keys<K, V>(e: Seq<(K, V)>, k: K)
    ensures
        has_key(insert_all(Seq::empty(), e), k) <==> has_key(e, k),
    decreases e.len(),
{
    if e.len() > 0 {
        let front = e.drop_last();
        lemma_insert_all_keys(front, k);
        lemma_insert_all_unique(front);
        lemma_inserted(insert_all(Seq::empty(), front), e.last().0, e.last().1);
        if has_key(front, k) {
            let m = key_index(front, k);
            assert(e[m].0 == k);
        }
        if has_key(e, k) && k != e.last().0 {
            let m = key_index(e, k);
            assert(front[m].0 == k);
        }
        if k == e.last().0 {
            assert(e[e.len() - 1].0 == k);
        }
    }
}

/// After inserting any pairs into an empty map, a key whose first insertion
/// came before another key's first insertion comes before it in the map.
pub proof fn lemma_first_insert_order<K, V>(e: Seq<(K, V)>, i: int, j: int)
    requires
        0 <= i < j < e.len(),
        forall|m: int| 0 <= m < i ==> e[m].0 != e[i].0,
        forall|m: int| 0 <= m < j ==> e[m].0 != e[j].0,
    ensures
        has_key(insert_all(Seq::empty(), e), e[i].0),
        has_key(insert_all(Seq::empty(), e), e[j].0),
        key_index(insert_all(Seq::empty(), e), e[i].0) < key_index(
            insert_all(Seq::empty(), e),
            e[j].0,
        ),
    decreases e.len(),
{
    let front = e.drop_last();
    let s = insert_all(Seq::empty(), front);
    let last = e.last().0;
    lemma_insert_all_unique(front);
    lemma_inserted(s, last, e.last().1);
    assert(front[i] == e[i]);
    assert(e[i].0 == front[i].0);
    lemma_insert_all_keys(front, e[i].0);
    lemma_insert_all_keys(e, e[i].0);
    lemma_insert_all_keys(e, e[j].0);
    assert(e[i].0 != e[j].0);
    if j == e.len() - 1 {
        if has_key(front, last) {
            let m = key_index(front, last);
            assert(e[m].0 == last);
        }
        let ki = key_index(s, e[i].0);
        assert(0 <= ki < s.len() && s[ki].0 == e[i].0);
        lemma_insert_all_keys(front, last);
        assert(insert_all(Seq::empty(), e) == inserted(s, last, e.last().1));
        assert(key_index(insert_all(Seq::empty(), e), last) == s.len());
        assert(key_index(insert_all(Seq::empty(), e), e[i].0) == ki);
    } else {
        assert(insert_all(Seq::empty(), e) == inserted(s, last, e.last().1));
        assert(front[j] == e[j]);
        assert(e[j].0 == front[j].0);
        lemma_insert_all_keys(front, e[j].0);
        lemma_first_insert_order(front, i, j);
    }
}

/// Removing every key of a map, once each and in any order, empties it.
pub proof fn lemma_remove_every_key<K, V>(s: Seq<(K, V)>, ks: Seq<K>)
    requires
        unique_keys(s),
        ks.no_duplicates(),
        ks.len() == s.len(),
        forall|i: int| 0 <= i < ks.len() ==> has_key(s, #[trigger] ks[i]),
    ensures
        remove_all(s, ks).len() == 0,
    decreases ks.len(),
{
    if ks.len() > 0 {
        let r = removed(s, ks[0]);
        lemma_removed(s, ks[0]);
        let rest = ks.drop_first();
        assert forall|i: int| 0 <= i < rest.len() implies has_key(r, #[trigger] rest[i]) by {
            assert(rest[i] == ks[i + 1]);
            assert(ks[i + 1] != ks[0]);
            assert(has_key(s, ks[i + 1]));
        }
        lemma_remove_every_key(r, rest);
    }
}

/// Inserting pairs with distinct keys into an empty map and then removing all
/// of their keys, in any order, leaves the map empty.
pub proof fn lemma_round_trip<K, V>(e: Seq<(K, V)>, ks: Seq<K>)
    requires
        unique_keys(e),
        ks.no_duplicates(),
        ks.len() == e.len(),
        forall|i: int| 0 <= i < ks.len() ==> has_key(e, #[trigger] ks[i]),
    ensures
        remove_all(insert_all(Seq::empty(), e), ks).len() == 0,
{
    lemma_distinct_inserts_keep_order(e);
    lemma_remove_every_key(e, ks);
}

} // verus!
