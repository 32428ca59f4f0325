use cddb::hashing::HashSeeds;
use cddb::map::AHashMap;

fn s(x: &str) -> String {
    x.to_string()
}

#[test]
fn test_ahashmap_all_apis() {
    let mut map: AHashMap<String, i32> = AHashMap::default();
    assert!(map.is_empty());
    assert_eq!(map.len(), 0);

    let map_cap: AHashMap<String, i32> = AHashMap::with_capacity(16);
    assert!(map_cap.is_empty());

    let map_hasher: AHashMap<String, i32> = AHashMap::with_hasher(HashSeeds::random());
    assert!(map_hasher.is_empty());

    assert_eq!(map.insert(s("a"), 1), None);
    assert_eq!(map.len(), 1);
    assert!(!map.is_empty());
    assert_eq!(map.insert(s("a"), 2), Some(1));
    assert_eq!(map.get(&s("a")), Some(&2));

    assert!(map.contains_key(&s("a")));
    assert!(!map.contains_key(&s("b")));

    if let Some(val) = map.get_mut(&s("a")) {
        *val = 3;
    }
    assert_eq!(map.get(&s("a")), Some(&3));

    assert_eq!(map.remove(&s("a")), Some(3));
    assert_eq!(map.remove(&s("a")), None);
    assert_eq!(map.len(), 0);

    for i in 0..100 {
        map.insert(format!("key_{}", i), i);
    }
    assert_eq!(map.len(), 100);
    for i in 0..100 {
        assert_eq!(map.get(&format!("key_{}", i)), Some(&i));
    }

    let count = map.iter().len();
    assert_eq!(count, 100);

    map.update_values(|k: &String, v: i32| if k.starts_with("key_") { v + 1 } else { v });
    for i in 0..100 {
        assert_eq!(map.get(&format!("key_{}", i)), Some(&(i + 1)));
    }

    let keys: Vec<&String> = map.keys();
    assert_eq!(keys.len(), 100);
    let values: Vec<&i32> = map.values();
    assert_eq!(values.len(), 100);

    let mut ref_count = 0;
    for _ in map.iter() {
        ref_count += 1;
    }
    assert_eq!(ref_count, 100);

    map.update_values(|k: &String, v: i32| if k == "key_0" { 999 } else { v });
    assert_eq!(map.get(&s("key_0")), Some(&999));

    let pair_vec = vec![(s("x"), 10), (s("y"), 20)];
    let map_from: AHashMap<String, i32> = AHashMap::from_entries(pair_vec);
    assert_eq!(map_from.get(&s("x")), Some(&10));
    assert_eq!(map_from.get(&s("y")), Some(&20));

    let mut owned_count = 0;
    for (k, v) in map_from.into_entries() {
        owned_count += 1;
        assert!(k == "x" || k == "y");
        assert!(v == 10 || v == 20);
    }
    assert_eq!(owned_count, 2);

    map.clear();
    assert_eq!(map.len(), 0);
    assert!(map.is_empty());
}

#[test]
fn test_ahashmap_deleted_buckets() {
    let mut map: AHashMap<i32, i32> = AHashMap::default();

    for i in 0..1000 {
        map.insert(i, i * 10);
    }

    for i in 0..1000 {
        if i % 2 == 0 {
            assert_eq!(map.remove(&i), Some(i * 10));
        }
    }

    for i in 1000..1500 {
        map.insert(i, i * 10);
    }

    for i in 0..1000 {
        if i % 2 != 0 {
            assert_eq!(map.get(&i), Some(&(i * 10)));
            assert_eq!(map.get_mut(&i), Some(&mut (i * 10)));
            assert!(map.contains_key(&i));
        } else {
            assert_eq!(map.get(&i), None);
            assert_eq!(map.get_mut(&i), None);
            assert!(!map.contains_key(&i));
        }
    }

    for i in 0..1000 {
        if i % 2 != 0 {
            assert_eq!(map.remove(&i), Some(i * 10));
        }
    }
}

#[test]
fn map_same_seeds_same_layout_of_lookups() {
    let seeds = HashSeeds::from_words(1, 2, 3, 4);
    let mut a: AHashMap<u64, u64> = AHashMap::with_hasher(seeds);
    for i in 0..50u64 {
        a.insert(i, i + 7);
    }
    for i in 0..50u64 {
        assert_eq!(a.get(&i), Some(&(i + 7)));
    }
    assert_eq!(a.get(&50), None);
}

#[test]
fn map_reinsert_after_remove_reuses_tombstone() {
    let mut m: AHashMap<usize, &'static str> = AHashMap::new();
    m.insert(1, "one");
    m.insert(2, "two");
    assert_eq!(m.remove(&1), Some("one"));
    assert_eq!(m.insert(1, "uno"), None);
    assert_eq!(m.get(&1), Some(&"uno"));
    assert_eq!(m.len(), 2);
}
