use wheels::map::HashMap;

#[test]
fn new_map_is_empty() {
    let map: HashMap<String, i32> = HashMap::new();
    assert!(map.is_empty());
    assert_eq!(map.len(), 0);
    assert_eq!(map.get(&"missing".to_string()), None);
}

#[test]
fn insert_then_get() {
    let mut map = HashMap::new();
    map.insert("one".to_string(), 1);
    map.insert("two".to_string(), 2);
    map.insert("three".to_string(), 3);
    assert_eq!(map.len(), 3);
    assert_eq!(map.get(&"one".to_string()), Some(&1));
    assert_eq!(map.get(&"two".to_string()), Some(&2));
    assert_eq!(map.get(&"three".to_string()), Some(&3));
}

#[test]
fn insert_returns_previous_value_on_overwrite() {
    let mut map = HashMap::new();
    assert_eq!(map.insert("k".to_string(), 1), None);
    assert_eq!(map.insert("k".to_string(), 2), Some(1));
    assert_eq!(map.insert("k".to_string(), 3), Some(2));
    assert_eq!(map.len(), 1);
    assert_eq!(map.get(&"k".to_string()), Some(&3));
}

#[test]
fn get_returns_none_for_missing_key() {
    let mut map = HashMap::new();
    map.insert(1, "a");
    map.insert(2, "b");
    assert_eq!(map.get(&3), None);
}

#[test]
fn contains_key_reports_presence() {
    let mut map = HashMap::new();
    map.insert(1, "a");
    assert!(map.contains_key(&1));
    assert!(!map.contains_key(&2));
}

#[test]
fn remove_returns_value_and_decrements_len() {
    let mut map = HashMap::new();
    map.insert("a".to_string(), 1);
    map.insert("b".to_string(), 2);
    assert_eq!(map.remove(&"a".to_string()), Some(1));
    assert_eq!(map.len(), 1);
    assert_eq!(map.get(&"a".to_string()), None);
    assert_eq!(map.get(&"b".to_string()), Some(&2));
}

#[test]
fn remove_missing_returns_none() {
    let mut map: HashMap<i32, i32> = HashMap::new();
    assert_eq!(map.remove(&1), None);
    map.insert(1, 10);
    assert_eq!(map.remove(&2), None);
    assert_eq!(map.len(), 1);
}

#[test]
fn get_mut_allows_in_place_update() {
    let mut map = HashMap::new();
    map.insert("counter".to_string(), 0);
    if let Some(v) = map.get_mut(&"counter".to_string()) {
        *v += 5;
    }
    assert_eq!(map.get(&"counter".to_string()), Some(&5));
}

#[test]
fn with_capacity_preallocates() {
    let mut map = HashMap::with_capacity(100);
    let initial_cap = map.capacity();
    assert!(initial_cap >= 100);
    for i in 0..100 {
        map.insert(i, i * 2);
    }
    assert_eq!(map.len(), 100);
    assert_eq!(map.capacity(), initial_cap);
    for i in 0..100 {
        assert_eq!(map.get(&i), Some(&(i * 2)));
    }
}

#[test]
fn resize_preserves_all_entries() {
    let mut map = HashMap::new();
    for i in 0..1000 {
        map.insert(i, i * 3);
    }
    assert_eq!(map.len(), 1000);
    for i in 0..1000 {
        assert_eq!(map.get(&i), Some(&(i * 3)));
    }
}

#[test]
fn iter_visits_every_entry_exactly_once() {
    let mut map = HashMap::new();
    let entries: Vec<(i32, &str)> = vec![(1, "a"), (2, "b"), (3, "c"), (4, "d"), (5, "e")];
    for (k, v) in &entries {
        map.insert(*k, *v);
    }
    let mut seen: Vec<(i32, &str)> = (&map).into_iter().map(|(k, v)| (*k, *v)).collect();
    seen.sort_by_key(|(k, _)| *k);
    assert_eq!(seen, entries);
}

#[test]
fn iter_via_for_loop() {
    let mut map = HashMap::new();
    map.insert(1, 10);
    map.insert(2, 20);
    let mut sum = 0;
    for (k, v) in &map {
        sum += k + v;
    }
    assert_eq!(sum, 1 + 10 + 2 + 20);
}

#[test]
fn reinsert_after_remove_works() {
    let mut map = HashMap::new();
    map.insert("x".to_string(), 1);
    map.remove(&"x".to_string());
    assert_eq!(map.get(&"x".to_string()), None);
    map.insert("x".to_string(), 2);
    assert_eq!(map.get(&"x".to_string()), Some(&2));
    assert_eq!(map.len(), 1);
}

#[test]
fn churn_keeps_map_correct() {
    // Insert/remove the same keys many times. If tombstone bookkeeping
    // is wrong, probes eventually stop finding existing keys, or the
    // table fills up and rebuild never happens.
    let mut map = HashMap::new();
    for round in 0..200 {
        for i in 0..50 {
            map.insert(i, round * 1000 + i);
        }
        for i in 0..50 {
            assert_eq!(map.get(&i), Some(&(round * 1000 + i)));
        }
        for i in 0..50 {
            assert_eq!(map.remove(&i), Some(round * 1000 + i));
        }
        assert_eq!(map.len(), 0);
    }
}

#[test]
fn many_collisions_via_pseudo_random_inputs() {
    // Deterministic pseudo-random keys (no external deps), then verify
    // every key is retrievable. A broken probe would silently lose keys.
    let mut state: u64 = 0x9E37_79B9_7F4A_7C15;
    let mut keys = Vec::with_capacity(2000);
    for _ in 0..2000 {
        state = state.wrapping_mul(1664525).wrapping_add(1013904223);
        keys.push(state);
    }
    let mut map = HashMap::new();
    for (i, k) in keys.iter().enumerate() {
        map.insert(*k, i);
    }
    assert_eq!(map.len(), keys.len());
    for (i, k) in keys.iter().enumerate() {
        assert_eq!(map.get(k), Some(&i));
    }
}

#[test]
fn works_with_unit_value_as_set() {
    let mut map: HashMap<i32, ()> = HashMap::new();
    map.insert(1, ());
    map.insert(2, ());
    map.insert(1, ());
    assert_eq!(map.len(), 2);
    assert!(map.contains_key(&1));
    assert!(map.contains_key(&2));
    assert!(!map.contains_key(&3));
}

// Further cases.

#[test]
fn first_insert_allocates_minimum_table() {
    let mut map: HashMap<u32, u32> = HashMap::new();
    assert_eq!(map.capacity(), 0);
    map.insert(7, 70);
    assert_eq!(map.capacity(), 8);
}

#[test]
fn table_doubles_at_three_quarters_load() {
    let mut map: HashMap<i64, i64> = HashMap::new();
    for i in 0..6 {
        map.insert(i, i);
    }
    // 6 of 8 slots used: the next insert rebuilds first.
    assert_eq!(map.capacity(), 8);
    map.insert(6, 6);
    assert_eq!(map.capacity(), 16);
    for i in 0..7 {
        assert_eq!(map.get(&i), Some(&i));
    }
}

#[test]
fn tombstones_trigger_rebuild_in_place() {
    let mut map: HashMap<usize, usize> = HashMap::new();
    for i in 0..6 {
        map.insert(i, i);
    }
    for i in 0..5 {
        assert_eq!(map.remove(&i), Some(i));
    }
    // 1 live entry and 5 tombstones: the next insert rebuilds at 8 slots.
    map.insert(100, 1);
    assert_eq!(map.capacity(), 8);
    assert_eq!(map.len(), 2);
    assert_eq!(map.get(&5), Some(&5));
    assert_eq!(map.get(&100), Some(&1));
}

#[test]
fn with_capacity_sizes() {
    let m0: HashMap<i32, i32> = HashMap::with_capacity(0);
    assert_eq!(m0.capacity(), 0);
    let m1: HashMap<i32, i32> = HashMap::with_capacity(1);
    assert_eq!(m1.capacity(), 8);
    let m6: HashMap<i32, i32> = HashMap::with_capacity(6);
    assert_eq!(m6.capacity(), 16);
    let m100: HashMap<i32, i32> = HashMap::with_capacity(100);
    assert_eq!(m100.capacity(), 256);
}

#[test]
fn get_mut_missing_key_is_none() {
    let mut map: HashMap<String, i32> = HashMap::new();
    assert!(map.get_mut(&"a".to_string()).is_none());
    map.insert("a".to_string(), 1);
    assert!(map.get_mut(&"b".to_string()).is_none());
    assert_eq!(map.len(), 1);
}

#[test]
fn default_map_is_empty() {
    let map: HashMap<u64, u64> = Default::default();
    assert!(map.is_empty());
    assert_eq!(map.capacity(), 0);
}

#[test]
fn strings_with_shared_prefixes_are_distinct_keys() {
    let mut map = HashMap::new();
    map.insert("ab".to_string(), 1);
    map.insert("a".to_string(), 2);
    map.insert("".to_string(), 3);
    assert_eq!(map.get(&"ab".to_string()), Some(&1));
    assert_eq!(map.get(&"a".to_string()), Some(&2));
    assert_eq!(map.get(&"".to_string()), Some(&3));
    assert_eq!(map.len(), 3);
}

#[test]
fn other_primitive_keys() {
    let mut m = HashMap::new();
    m.insert('x', 1u8);
    m.insert('y', 2u8);
    assert_eq!(m.get(&'x'), Some(&1));
    let mut b = HashMap::new();
    b.insert(true, "t");
    b.insert(false, "f");
    b.insert(true, "T");
    assert_eq!(b.len(), 2);
    assert_eq!(b.get(&true), Some(&"T"));
    let mut w: HashMap<i128, u16> = HashMap::new();
    w.insert(-1, 7);
    w.insert(i128::MAX, 8);
    assert_eq!(w.get(&-1), Some(&7));
    assert_eq!(w.get(&i128::MAX), Some(&8));
    assert_eq!(w.get(&0), None);
    let mut s: HashMap<i8, i16> = HashMap::new();
    s.insert(-3, -300);
    assert_eq!(s.remove(&-3), Some(-300));
}

#[test]
fn iter_and_into_iter_agree() {
    let mut map = HashMap::new();
    for i in 0..20u64 {
        map.insert(i, i + 1);
    }
    map.remove(&3);
    let mut via_iter = Vec::new();
    let mut it = map.iter();
    while let Some((k, v)) = it.next() {
        via_iter.push((*k, *v));
    }
    let via_loop: Vec<(u64, u64)> = (&map).into_iter().map(|(k, v)| (*k, *v)).collect();
    assert_eq!(via_iter, via_loop);
    assert_eq!(via_loop.len(), 19);
}
