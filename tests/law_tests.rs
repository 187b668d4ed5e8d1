use chashmap::CHashMap;

#[test]
fn distinct_inserts_count_each_key_once() {
    let mut m = CHashMap::new();
    for k in [7u64, 3, 11, 0, 42] {
        assert!(m.insert(k, k * 2).is_none());
    }
    assert_eq!(m.len(), 5);
    assert_eq!(m.insert(3, 100), Some(6));
    assert_eq!(m.len(), 5);
    assert_eq!(m.get(&3), Some(&100));
}

#[test]
fn absent_keys_give_nothing() {
    let mut m = CHashMap::new();
    m.insert(1i64, 'x');
    m.insert(-5i64, 'y');
    assert_eq!(m.get(&2), None);
    assert!(!m.contains_key(&2));
    assert_eq!(m.remove(&2), None);
    assert_eq!(m.remove(&-5), Some('y'));
    assert_eq!(m.get(&-5), None);
    assert!(!m.contains_key(&-5));
    assert_eq!(m.len(), 1);
}

#[test]
fn value_survives_other_keys() {
    let mut m = CHashMap::new();
    m.insert(10u32, 1);
    for k in 0..50u32 {
        if k != 10 {
            m.insert(k, 0);
        }
    }
    for k in 0..50u32 {
        if k != 10 && k % 3 == 0 {
            m.remove(&k);
        }
    }
    assert_eq!(m.get(&10), Some(&1));
    m.insert(10, 2);
    assert_eq!(m.get(&10), Some(&2));
    m.remove(&10);
    assert_eq!(m.get(&10), None);
}

#[test]
fn second_remove_finds_nothing() {
    let mut m = CHashMap::new();
    m.insert(4usize, "four");
    assert_eq!(m.remove(&4), Some("four"));
    assert_eq!(m.remove(&4), None);
    assert_eq!(m.remove(&4), None);
    assert!(m.is_empty());
}

#[test]
fn capacity_only_grows_without_shrink() {
    let mut m = CHashMap::new();
    let mut last = m.capacity();
    for k in 0..300i32 {
        m.insert(k, k);
        assert!(m.capacity() >= last);
        last = m.capacity();
    }
    for k in 0..300i32 {
        m.remove(&k);
        assert_eq!(m.capacity(), last);
    }
    m.reserve(10);
    assert_eq!(m.capacity(), last);
    m.reserve(1000);
    assert!(m.capacity() >= last);
}

#[test]
fn shrink_keeps_entries() {
    let mut m = CHashMap::with_capacity(1000);
    for k in 0..40u64 {
        m.insert(k, k + 1);
    }
    let before = m.capacity();
    m.shrink_to_fit();
    assert!(m.capacity() >= m.len());
    assert!(m.capacity() <= before);
    assert_eq!(m.len(), 40);
    for k in 0..40u64 {
        assert_eq!(m.get(&k), Some(&(k + 1)));
    }
}

#[test]
fn with_capacity_sizes() {
    let a: CHashMap<u64, u8> = CHashMap::with_capacity(0);
    assert_eq!(a.capacity(), 0);
    let b: CHashMap<u64, u8> = CHashMap::with_capacity(3);
    assert_eq!(b.capacity(), 4);
    let c: CHashMap<u64, u8> = CHashMap::with_capacity(4);
    assert_eq!(c.capacity(), 6);
}

#[test]
fn first_insert_grows_empty_table() {
    let mut m = CHashMap::new();
    assert_eq!(m.capacity(), 0);
    m.insert(9u64, 9u64);
    assert_eq!(m.capacity(), 2);
    m.insert(8, 8);
    assert_eq!(m.capacity(), 4);
    m.insert(7, 7);
    assert_eq!(m.capacity(), 4);
    m.insert(6, 6);
    assert_eq!(m.capacity(), 8);
}

#[test]
fn shrink_to_exact_fit() {
    let mut m = CHashMap::new();
    for k in 0..6u64 {
        m.insert(k, k);
    }
    assert_eq!(m.capacity(), 8);
    for k in 0..2u64 {
        m.remove(&k);
    }
    m.shrink_to_fit();
    assert_eq!(m.capacity(), 4);
    m.insert(100, 100);
    assert_eq!(m.capacity(), 8);
    assert_eq!(m.len(), 5);
    for k in 2..6u64 {
        assert_eq!(m.get(&k), Some(&k));
    }
}

#[test]
fn from_pairs_later_pair_wins() {
    let m = CHashMap::from_pairs(vec![(1u64, 'a'), (2, 'b'), (1, 'c')]);
    assert_eq!(m.len(), 2);
    assert_eq!(m.get(&1), Some(&'c'));
    assert_eq!(m.get(&2), Some(&'b'));
}

#[test]
fn iter_hands_out_every_entry_once() {
    let m = CHashMap::from_pairs((0..20u64).map(|k| (k, k * k)).collect());
    let mut it = m.iter();
    assert_eq!(it.len(), 20);
    let mut seen = Vec::new();
    while let Some((k, v)) = it.next() {
        assert_eq!(*v, *k * *k);
        seen.push(*k);
    }
    assert_eq!(it.len(), 0);
    assert_eq!(it.size_hint(), (0, Some(0)));
    seen.sort();
    assert_eq!(seen, (0..20u64).collect::<Vec<_>>());
}

#[test]
fn into_entries_gives_all_pairs() {
    let mut m = CHashMap::new();
    for k in 0..30i32 {
        m.insert(k, -k);
    }
    m.remove(&5);
    let mut e = m.into_entries();
    e.sort();
    assert_eq!(e.len(), 29);
    assert!(e.iter().all(|&(k, v)| v == -k && k != 5));
}

#[test]
fn negative_and_large_keys() {
    let mut m = CHashMap::new();
    let keys = [i64::MIN, -1, 0, 1, i64::MAX];
    for (n, k) in keys.iter().enumerate() {
        m.insert(*k, n);
    }
    for (n, k) in keys.iter().enumerate() {
        assert_eq!(m.get(k), Some(&n));
    }
    assert_eq!(m.len(), 5);
}

#[test]
fn get_mut_on_absent_key_changes_nothing() {
    let mut m = CHashMap::new();
    m.insert(3u64, 30u64);
    assert!(m.get_mut(&4).is_none());
    assert_eq!(m.len(), 1);
    if let Some(v) = m.get_mut(&3) {
        *v += 1;
    }
    assert_eq!(m.get(&3), Some(&31));
    assert_eq!(m.len(), 1);
}
