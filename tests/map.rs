use linked_hash_map::{IntoIter, Iter, LinkedHashMap};

fn walk<'a>(mut it: Iter<'a, i32, &'static str>) -> Vec<(i32, &'static str)> {
    let mut out = Vec::new();
    while let Some((k, v)) = it.next() {
        out.push((k, *v));
    }
    out
}

fn drain(mut it: IntoIter<i32, &'static str>) -> Vec<(i32, &'static str)> {
    let mut out = Vec::new();
    while let Some(e) = it.next() {
        out.push(e);
    }
    out
}

#[test]
fn insert() {
    let mut v: LinkedHashMap<i32, &str> = LinkedHashMap::new();
    assert_eq!(v.insert(10, "Hello"), None);
    assert_eq!(v.insert(20, "Hello Hello"), None);
    assert_eq!(v.insert(30, "Hello Hello Hello"), None);
    assert_eq!(
        walk(v.iter()),
        vec![(10, "Hello"), (20, "Hello Hello"), (30, "Hello Hello Hello")]
    );
}

#[test]
fn into_iter() {
    let mut map: LinkedHashMap<i32, &str> = LinkedHashMap::new();
    map.insert(10, "Hello");
    map.insert(20, "Hello Hello");
    map.insert(30, "Hello Hello Hello");
    map.insert(40, "Hello Hello Hello Hello");
    assert_eq!(
        drain(map.into_iter()),
        vec![
            (10, "Hello"),
            (20, "Hello Hello"),
            (30, "Hello Hello Hello"),
            (40, "Hello Hello Hello Hello")
        ]
    );
}

#[test]
fn distinct_inserts_iterate_in_insertion_order() {
    let mut map: LinkedHashMap<i32, &str> = LinkedHashMap::new();
    for (k, v) in [(7, "g"), (3, "c"), (9, "i"), (1, "a"), (5, "e")] {
        map.insert(k, v);
    }
    assert_eq!(walk(map.iter()), vec![(7, "g"), (3, "c"), (9, "i"), (1, "a"), (5, "e")]);
    assert_eq!(map.len(), 5);
}

#[test]
fn reinsert_updates_value_in_place() {
    let mut map: LinkedHashMap<i32, &str> = LinkedHashMap::new();
    map.insert(1, "a");
    map.insert(2, "b");
    map.insert(3, "c");
    assert_eq!(map.insert(2, "B"), Some("b"));
    assert_eq!(map.len(), 3);
    assert_eq!(walk(map.iter()), vec![(1, "a"), (2, "B"), (3, "c")]);
    assert_eq!(map.get(&2), Some(&"B"));
}

#[test]
fn removed_key_is_absent_and_len_drops() {
    let mut map: LinkedHashMap<i32, &str> = LinkedHashMap::new();
    map.insert(1, "a");
    map.insert(2, "b");
    map.insert(3, "c");
    assert_eq!(map.remove(&1), Some("a"));
    assert_eq!(map.get(&1), None);
    assert!(!map.contains_key(&1));
    assert_eq!(map.len(), 2);
    assert_eq!(walk(map.iter()), vec![(2, "b"), (3, "c")]);
    assert_eq!(map.remove(&3), Some("c"));
    assert_eq!(map.len(), 1);
    assert_eq!(walk(map.iter()), vec![(2, "b")]);
    assert_eq!(map.remove(&2), Some("b"));
    assert_eq!(map.len(), 0);
    assert!(map.is_empty());
}

#[test]
fn removing_absent_key_changes_nothing() {
    let mut map: LinkedHashMap<i32, &str> = LinkedHashMap::new();
    map.insert(1, "a");
    map.insert(2, "b");
    assert_eq!(map.remove(&42), None);
    assert_eq!(map.len(), 2);
    assert_eq!(walk(map.iter()), vec![(1, "a"), (2, "b")]);
}

#[test]
fn drain_yields_last_values_in_insertion_order() {
    let mut map: LinkedHashMap<i32, &str> = LinkedHashMap::new();
    map.insert(4, "d");
    map.insert(2, "b");
    map.insert(4, "D");
    map.insert(8, "h");
    map.insert(2, "B");
    let mut it = map.into_iter();
    assert_eq!(it.next(), Some((4, "D")));
    assert_eq!(it.next(), Some((2, "B")));
    assert_eq!(it.next(), Some((8, "h")));
    assert_eq!(it.next(), None);
    assert_eq!(it.next(), None);
}

#[test]
fn collect_vec_drains_everything() {
    let mut map: LinkedHashMap<i32, &str> = LinkedHashMap::new();
    map.insert(3, "x");
    map.insert(1, "y");
    map.insert(3, "z");
    assert_eq!(map.into_iter().collect_vec(), vec![(3, "z"), (1, "y")]);
}

#[test]
fn removing_every_key_in_any_order_empties() {
    let mut map: LinkedHashMap<i32, &str> = LinkedHashMap::new();
    for k in 0..6 {
        map.insert(k, "v");
    }
    for k in [3, 0, 5, 1, 4, 2] {
        assert_eq!(map.remove(&k), Some("v"));
    }
    assert!(map.is_empty());
    assert_eq!(map.len(), 0);
    assert_eq!(walk(map.iter()), vec![]);
}

#[test]
fn three_entries_remove_middle_then_update() {
    let mut map: LinkedHashMap<i32, &str> = LinkedHashMap::new();
    map.insert(10, "a");
    map.insert(20, "b");
    map.insert(30, "c");
    assert_eq!(walk(map.iter()), vec![(10, "a"), (20, "b"), (30, "c")]);
    assert_eq!(map.remove(&20), Some("b"));
    assert_eq!(walk(map.iter()), vec![(10, "a"), (30, "c")]);
    assert_eq!(map.insert(10, "z"), Some("a"));
    assert_eq!(walk(map.iter()), vec![(10, "z"), (30, "c")]);
}

#[test]
fn new_map_is_empty() {
    let mut map: LinkedHashMap<i32, &str> = LinkedHashMap::new();
    assert_eq!(map.len(), 0);
    assert!(map.is_empty());
    assert_eq!(map.remove(&7), None);
    assert_eq!(map.get(&7), None);
    assert!(!map.contains_key(&7));
    assert_eq!(walk(map.iter()), vec![]);
    assert_eq!(drain(map.into_iter()), vec![]);
}

#[test]
fn emptied_map_behaves_like_new() {
    let mut map: LinkedHashMap<i32, &str> = LinkedHashMap::new();
    map.insert(5, "x");
    assert_eq!(map.remove(&5), Some("x"));
    assert!(map.is_empty());
    assert_eq!(map.insert(6, "y"), None);
    assert_eq!(map.insert(7, "z"), None);
    assert_eq!(map.len(), 2);
    assert_eq!(walk(map.iter()), vec![(6, "y"), (7, "z")]);
    assert_eq!(map.remove(&6), Some("y"));
    assert_eq!(walk(map.iter()), vec![(7, "z")]);
}

#[test]
fn remove_head_and_tail_relinks() {
    let mut map: LinkedHashMap<i32, &str> = LinkedHashMap::new();
    for (k, v) in [(1, "a"), (2, "b"), (3, "c"), (4, "d")] {
        map.insert(k, v);
    }
    assert_eq!(map.remove(&1), Some("a"));
    assert_eq!(map.remove(&4), Some("d"));
    assert_eq!(walk(map.iter()), vec![(2, "b"), (3, "c")]);
    map.insert(5, "e");
    assert_eq!(walk(map.iter()), vec![(2, "b"), (3, "c"), (5, "e")]);
}

#[test]
fn reverse_flips_order_and_anchors() {
    let mut map: LinkedHashMap<i32, &str> = LinkedHashMap::new();
    map.reverse();
    assert!(map.is_empty());
    for (k, v) in [(1, "a"), (2, "b"), (3, "c")] {
        map.insert(k, v);
    }
    map.reverse();
    assert_eq!(walk(map.iter()), vec![(3, "c"), (2, "b"), (1, "a")]);
    map.insert(4, "d");
    assert_eq!(walk(map.iter()), vec![(3, "c"), (2, "b"), (1, "a"), (4, "d")]);
    assert_eq!(map.remove(&3), Some("c"));
    assert_eq!(map.remove(&4), Some("d"));
    assert_eq!(walk(map.iter()), vec![(2, "b"), (1, "a")]);
}

#[test]
fn get_mut_writes_in_place() {
    let mut map: LinkedHashMap<i32, &str> = LinkedHashMap::new();
    map.insert(1, "a");
    map.insert(2, "b");
    if let Some(v) = map.get_mut(&1) {
        *v = "A";
    }
    assert!(map.get_mut(&9).is_none());
    assert_eq!(walk(map.iter()), vec![(1, "A"), (2, "b")]);
    assert_eq!(map.get(&1), Some(&"A"));
    assert!(map.contains_key(&2));
}
