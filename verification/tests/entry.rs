use std::cmp::Ordering;

use btree::{BTree, Entry};

fn at(key: &'static str) -> impl Fn(&&'static str) -> Ordering {
    move |k: &&'static str| key.cmp(k)
}

fn keys_of(map: &BTree<&'static str, usize>, probes: &[&'static str]) -> Vec<Option<usize>> {
    probes.iter().map(|p| map.get(at(*p)).copied()).collect()
}

#[test]
fn or_insert_on_vacant_inserts() {
    let mut map: BTree<&str, usize> = BTree::new();
    map.entry(at("poneyland")).or_insert("poneyland", 12);
    assert_eq!(map.get(at("poneyland")), Some(&12));
    assert_eq!(map.len(), 1);
}

#[test]
fn or_insert_on_occupied_keeps_value() {
    let mut map: BTree<&str, usize> = BTree::new();
    map.entry(at("poneyland")).or_insert("poneyland", 12);
    let v = map.entry(at("poneyland")).or_insert("poneyland", 99);
    assert_eq!(*v, 12);
    *v += 1;
    assert_eq!(map.get(at("poneyland")), Some(&13));
    assert_eq!(map.len(), 1);
}

#[test]
fn or_insert_with_uses_default_only_when_vacant() {
    let mut map: BTree<&str, String> = BTree::new();
    let s = "hoho".to_string();
    map.entry(at("poneyland")).or_insert_with(|| ("poneyland", s));
    assert_eq!(map.get(at("poneyland")), Some(&"hoho".to_string()));
    map.entry(at("poneyland")).or_insert_with(|| ("poneyland", "other".to_string()));
    assert_eq!(map.get(at("poneyland")), Some(&"hoho".to_string()));
}

#[test]
fn and_modify_then_or_insert() {
    let mut map: BTree<&str, usize> = BTree::new();
    map.entry(at("poneyland")).and_modify(|_k, e| *e += 1).or_insert("poneyland", 42);
    assert_eq!(map.get(at("poneyland")), Some(&42));
    map.entry(at("poneyland")).and_modify(|_k, e| *e += 1).or_insert("poneyland", 42);
    assert_eq!(map.get(at("poneyland")), Some(&43));
}

#[test]
fn entry_insert_entry_gives_occupied_entry() {
    let mut map: BTree<&str, String> = BTree::new();
    let entry = map.entry(at("poneyland")).insert_entry("poneyland", "hoho".to_string());
    assert_eq!(entry.key(), &"poneyland");
    assert_eq!(entry.get(), &"hoho".to_string());
    let entry = map.entry(at("poneyland")).insert_entry("ignored", "hihi".to_string());
    assert_eq!(entry.key(), &"poneyland");
    assert_eq!(entry.get(), &"hihi".to_string());
    assert_eq!(map.len(), 1);
}

#[test]
fn vacant_insert_sets_value() {
    let mut map: BTree<&str, u32> = BTree::new();
    if let Entry::Vacant(o) = map.entry(at("poneyland")) {
        o.insert("poneyland", 37);
    } else {
        panic!("expected a vacant entry");
    }
    assert_eq!(map.get(at("poneyland")), Some(&37));
}

#[test]
fn vacant_insert_entry_returns_entry() {
    let mut map: BTree<&str, u32> = BTree::new();
    if let Entry::Vacant(o) = map.entry(at("poneyland")) {
        let entry = o.insert_entry("poneyland", 37);
        assert_eq!(entry.get(), &37);
    } else {
        panic!("expected a vacant entry");
    }
    assert_eq!(map.get(at("poneyland")), Some(&37));
}

#[test]
fn occupied_key_and_get() {
    let mut map: BTree<&str, usize> = BTree::new();
    map.entry(at("poneyland")).or_insert("poneyland", 12);
    match map.entry(at("poneyland")) {
        Entry::Occupied(o) => {
            assert_eq!(o.key(), &"poneyland");
            assert_eq!(o.get(), &12);
        }
        Entry::Vacant(_) => panic!("expected an occupied entry"),
    }
}

#[test]
fn occupied_into_key() {
    let mut map: BTree<&str, usize> = BTree::new();
    map.entry(at("poneyland")).or_insert("poneyland", 12);
    match map.entry(at("poneyland")) {
        Entry::Occupied(o) => assert_eq!(o.into_key(), &"poneyland"),
        Entry::Vacant(_) => panic!("expected an occupied entry"),
    }
    assert_eq!(map.len(), 1);
}

#[test]
fn occupied_remove_entry() {
    let mut map: BTree<&str, usize> = BTree::new();
    map.entry(at("poneyland")).or_insert("poneyland", 12);
    if let Entry::Occupied(o) = map.entry(at("poneyland")) {
        assert_eq!(o.remove_entry(), ("poneyland", 12));
    } else {
        panic!("expected an occupied entry");
    }
    assert_eq!(map.get(at("poneyland")), None);
    assert_eq!(map.len(), 0);
    assert!(map.is_empty());
}

#[test]
fn occupied_get_mut_can_be_used_twice() {
    let mut map: BTree<&str, usize> = BTree::new();
    map.entry(at("poneyland")).or_insert("poneyland", 12);
    assert_eq!(map.get(at("poneyland")), Some(&12));
    if let Entry::Occupied(mut o) = map.entry(at("poneyland")) {
        *o.get_mut() += 10;
        assert_eq!(*o.get(), 22);
        *o.get_mut() += 2;
    } else {
        panic!("expected an occupied entry");
    }
    assert_eq!(map.get(at("poneyland")), Some(&24));
}

#[test]
fn occupied_into_mut() {
    let mut map: BTree<&str, usize> = BTree::new();
    map.entry(at("poneyland")).or_insert("poneyland", 12);
    assert_eq!(map.get(at("poneyland")), Some(&12));
    if let Entry::Occupied(o) = map.entry(at("poneyland")) {
        *o.into_mut() += 10;
    }
    assert_eq!(map.get(at("poneyland")), Some(&22));
}

#[test]
fn occupied_insert_returns_old_value() {
    let mut map: BTree<&str, usize> = BTree::new();
    map.entry(at("poneyland")).or_insert("poneyland", 12);
    if let Entry::Occupied(mut o) = map.entry(at("poneyland")) {
        assert_eq!(o.insert(15), 12);
    } else {
        panic!("expected an occupied entry");
    }
    assert_eq!(map.get(at("poneyland")), Some(&15));
}

#[test]
fn occupied_remove_returns_value() {
    let mut map: BTree<&str, usize> = BTree::new();
    map.entry(at("poneyland")).or_insert("poneyland", 12);
    if let Entry::Occupied(o) = map.entry(at("poneyland")) {
        assert_eq!(o.remove(), 12);
    } else {
        panic!("expected an occupied entry");
    }
    assert_eq!(map.get(at("poneyland")), None);
}

#[test]
fn keys_stay_in_order() {
    let mut map: BTree<&str, usize> = BTree::new();
    for (i, k) in ["m", "c", "x", "a", "q", "c"].iter().enumerate() {
        map.entry(at(*k)).or_insert(*k, i);
    }
    assert_eq!(map.len(), 5);
    let got = keys_of(&map, &["a", "b", "c", "m", "q", "x", "z"]);
    assert_eq!(got, vec![Some(3), None, Some(1), Some(0), Some(4), Some(2), None]);
}

#[test]
fn removed_entry_can_be_inserted_again() {
    let mut map: BTree<&str, usize> = BTree::new();
    map.entry(at("b")).or_insert("b", 2);
    map.entry(at("a")).or_insert("a", 1);
    if let Entry::Occupied(o) = map.entry(at("a")) {
        o.remove();
    }
    assert!(matches!(map.entry(at("a")), Entry::Vacant(_)));
    map.entry(at("a")).or_insert("a", 10);
    assert_eq!(map.get(at("a")), Some(&10));
    assert_eq!(map.get(at("b")), Some(&2));
    assert_eq!(map.len(), 2);
}

#[test]
fn try_insert_vacant_and_occupied() {
    let mut map: BTree<&str, usize> = BTree::new();
    assert_eq!(map.try_insert(at("a"), "a", 1).ok().copied(), Some(1));
    match map.try_insert(at("a"), "a2", 2) {
        Ok(_) => panic!("expected the key to be occupied"),
        Err(err) => {
            assert_eq!(err.entry.key(), &"a");
            assert_eq!(err.entry.get(), &1);
            assert_eq!(err.key, "a2");
            assert_eq!(err.value, 2);
        }
    }
    assert_eq!(map.get(at("a")), Some(&1));
    assert_eq!(map.len(), 1);
}

#[test]
fn remove_entry_undoes_insert_entry() {
    let mut map: BTree<&str, usize> = BTree::new();
    for (i, k) in ["d", "b", "f"].iter().enumerate() {
        map.entry(at(*k)).or_insert(*k, i);
    }
    let before = keys_of(&map, &["a", "b", "c", "d", "e", "f"]);
    let entry = match map.entry(at("c")) {
        Entry::Vacant(v) => v.insert_entry("c", 7),
        Entry::Occupied(_) => panic!("expected a vacant entry"),
    };
    assert_eq!(entry.remove_entry(), ("c", 7));
    assert_eq!(keys_of(&map, &["a", "b", "c", "d", "e", "f"]), before);
    assert_eq!(map.len(), 3);
}

#[test]
fn inconsistent_orderings_do_not_break_the_map() {
    let mut map: BTree<u32, u32> = BTree::new();
    for i in 0..50 {
        // An ordering function that places every probe after every key.
        map.entry(|_k: &u32| Ordering::Greater).or_insert(i, i);
    }
    for i in 0..50 {
        // One that places every probe before every key.
        map.entry(|_k: &u32| Ordering::Less).or_insert(100 + i, i);
    }
    assert_eq!(map.len(), 100);
    // One that matches whatever key it meets first takes the pairs out one by one.
    for left in (0..100).rev() {
        match map.entry(|_k: &u32| Ordering::Equal) {
            Entry::Occupied(o) => {
                o.remove();
            }
            Entry::Vacant(_) => panic!("expected an occupied entry"),
        }
        assert_eq!(map.len(), left);
    }
    assert!(matches!(map.entry(|_k: &u32| Ordering::Equal), Entry::Vacant(_)));
}

#[test]
fn insert_entry_twice_is_insert_entry_once() {
    let build = |times: usize| {
        let mut map: BTree<&str, usize> = BTree::new();
        for (i, k) in ["d", "b", "f", "a"].iter().enumerate() {
            map.entry(at(*k)).or_insert(*k, i);
        }
        for _ in 0..times {
            map.entry(at("c")).insert_entry("c", 9);
        }
        map
    };
    let once = build(1);
    let twice = build(2);
    let probes = ["a", "b", "c", "d", "e", "f"];
    assert_eq!(keys_of(&once, &probes), keys_of(&twice, &probes));
    assert_eq!(keys_of(&twice, &probes), vec![Some(3), Some(1), Some(9), Some(0), None, Some(2)]);
    assert_eq!(once.len(), 5);
    assert_eq!(twice.len(), 5);
}

#[test]
fn or_insert_with_fixed_pair_matches_or_insert() {
    for present in [false, true] {
        let mut with_fn: BTree<&str, usize> = BTree::new();
        let mut plain: BTree<&str, usize> = BTree::new();
        for (i, k) in ["d", "b", "f"].iter().enumerate() {
            with_fn.entry(at(*k)).or_insert(*k, i);
            plain.entry(at(*k)).or_insert(*k, i);
        }
        let probe = if present { "b" } else { "c" };
        let a = *with_fn.entry(at(probe)).or_insert_with(|| (probe, 40));
        let b = *plain.entry(at(probe)).or_insert(probe, 40);
        assert_eq!(a, b);
        assert_eq!(a, if present { 1 } else { 40 });
        let probes = ["a", "b", "c", "d", "e", "f"];
        assert_eq!(keys_of(&with_fn, &probes), keys_of(&plain, &probes));
        assert_eq!(with_fn.len(), plain.len());
    }
}

#[test]
fn and_modify_keeping_the_key_keeps_the_order() {
    let mut map: BTree<&str, usize> = BTree::new();
    for (i, k) in ["d", "b", "f", "a", "e"].iter().enumerate() {
        map.entry(at(*k)).or_insert(*k, i);
    }
    map.entry(at("d")).and_modify(|k, v| {
        *k = "d";
        *v += 10;
    });
    let probes = ["a", "b", "c", "d", "e", "f"];
    assert_eq!(keys_of(&map, &probes), vec![Some(3), Some(1), None, Some(10), Some(4), Some(2)]);
    assert_eq!(map.len(), 5);
}
