use std::cmp::Ordering;

use btree::{BTree, Entry};

fn probe(key: u32) -> impl Fn(&u32) -> Ordering {
    move |k: &u32| key.cmp(k)
}

fn insert(map: &mut BTree<u32, u32>, key: u32, value: u32) {
    map.entry(probe(key)).or_insert(key, value);
}

fn remove(map: &mut BTree<u32, u32>, key: u32) -> Option<u32> {
    match map.entry(probe(key)) {
        Entry::Occupied(o) => Some(o.remove()),
        Entry::Vacant(_) => None,
    }
}

/// A fixed permutation of 0..n, so that insertions land all over the tree.
fn scrambled(n: u32) -> Vec<u32> {
    (0..n).map(|i| (i * 7919) % n).collect()
}

#[test]
fn many_inserts_keep_every_key() {
    let mut map = BTree::new();
    let n = 1000;
    for k in scrambled(n) {
        insert(&mut map, k, k * 10);
    }
    assert_eq!(map.len(), n as usize);
    for k in 0..n {
        assert_eq!(map.get(probe(k)), Some(&(k * 10)));
    }
    assert_eq!(map.get(probe(n)), None);
}

#[test]
fn ascending_and_descending_inserts() {
    let mut up = BTree::new();
    let mut down = BTree::new();
    for k in 0..500 {
        insert(&mut up, k, k);
        insert(&mut down, 499 - k, 499 - k);
    }
    assert_eq!(up.len(), 500);
    assert_eq!(down.len(), 500);
    for k in 0..500 {
        assert_eq!(up.get(probe(k)), Some(&k));
        assert_eq!(down.get(probe(k)), Some(&k));
    }
}

#[test]
fn removing_everything_empties_the_map() {
    let mut map = BTree::new();
    let n = 700;
    for k in scrambled(n) {
        insert(&mut map, k, k + 1);
    }
    for (count, k) in scrambled(n).into_iter().rev().enumerate() {
        assert_eq!(remove(&mut map, k), Some(k + 1));
        assert_eq!(remove(&mut map, k), None);
        assert_eq!(map.len(), n as usize - count - 1);
    }
    assert!(map.is_empty());
    for k in 0..n {
        assert_eq!(map.get(probe(k)), None);
    }
    insert(&mut map, 5, 6);
    assert_eq!(map.get(probe(5)), Some(&6));
    assert_eq!(map.len(), 1);
}

#[test]
fn interleaved_inserts_and_removals() {
    let mut map = BTree::new();
    for k in 0..400 {
        insert(&mut map, k, k);
    }
    for k in (0..400).filter(|k| k % 3 == 0) {
        assert_eq!(remove(&mut map, k), Some(k));
    }
    for k in 400..600 {
        insert(&mut map, k, k);
    }
    for k in 0..600 {
        let expected = if k < 400 && k % 3 == 0 { None } else { Some(k) };
        assert_eq!(map.get(probe(k)).copied(), expected);
    }
    assert_eq!(map.len(), 600 - 134);
}

#[test]
fn values_written_through_entries_stay() {
    let mut map = BTree::new();
    for k in scrambled(300) {
        insert(&mut map, k, 0);
    }
    for k in 0..300 {
        if let Entry::Occupied(mut o) = map.entry(probe(k)) {
            *o.get_mut() += k;
            assert_eq!(o.insert(2 * k), k);
        } else {
            panic!("expected an occupied entry");
        }
    }
    for k in 0..300 {
        assert_eq!(map.get(probe(k)), Some(&(2 * k)));
    }
}

#[test]
fn remove_entry_gives_back_key_and_value() {
    let mut map = BTree::new();
    for k in 0..100 {
        insert(&mut map, k, k + 100);
    }
    for k in (0..100).rev() {
        match map.entry(probe(k)) {
            Entry::Occupied(o) => assert_eq!(o.remove_entry(), (k, k + 100)),
            Entry::Vacant(_) => panic!("expected an occupied entry"),
        }
    }
    assert!(map.is_empty());
}
