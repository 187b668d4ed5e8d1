use chashmap::key::Dropable;
use chashmap::CHashMap;
use std::rc::Rc;

fn live(tokens: &[Rc<()>]) -> Vec<usize> {
    tokens.iter().map(|t| Rc::strong_count(t) - 1).collect()
}

#[test]
fn test_create_capacity_zero() {
    let mut m = CHashMap::with_capacity(0);

    assert!(m.insert(1, 1).is_none());

    assert!(m.contains_key(&1));
    assert!(!m.contains_key(&0));
}

#[test]
fn test_insert() {
    let mut m = CHashMap::new();
    assert_eq!(m.len(), 0);
    assert!(m.insert(1, 2).is_none());
    assert_eq!(m.len(), 1);
    assert!(m.insert(2, 4).is_none());
    assert_eq!(m.len(), 2);
    assert_eq!(*m.get(&1).unwrap(), 2);
    assert_eq!(*m.get(&2).unwrap(), 4);
}

#[test]
fn test_drops() {
    let tokens: Vec<Rc<()>> = (0..200).map(|_| Rc::new(())).collect();
    {
        let mut m = CHashMap::new();

        for i in 0..200 {
            assert_eq!(live(&tokens)[i], 0);
        }

        for i in 0..100usize {
            let d1 = Dropable::with_token(i, Rc::clone(&tokens[i]));
            let d2 = Dropable::with_token(i + 100, Rc::clone(&tokens[i + 100]));
            m.insert(d1, d2);
        }

        for i in 0..200 {
            assert_eq!(live(&tokens)[i], 1);
        }

        for i in 0..50usize {
            let k = Dropable::with_token(i, Rc::clone(&tokens[i]));
            let v = m.remove(&k);
            assert!(v.is_some());
            assert_eq!(live(&tokens)[i], 1);
            assert_eq!(live(&tokens)[i + 100], 1);
        }

        let counts = live(&tokens);
        for i in 0..50 {
            assert_eq!(counts[i], 0);
            assert_eq!(counts[i + 100], 0);
        }
        for i in 50..100 {
            assert_eq!(counts[i], 1);
            assert_eq!(counts[i + 100], 1);
        }
    }
    for i in 0..200 {
        assert_eq!(live(&tokens)[i], 0);
    }
}

#[test]
fn test_move_iter_drops() {
    let tokens: Vec<Rc<()>> = (0..200).map(|_| Rc::new(())).collect();
    let hm = {
        let mut hm = CHashMap::new();
        for i in 0..200 {
            assert_eq!(live(&tokens)[i], 0);
        }
        for i in 0..100usize {
            let d1 = Dropable::with_token(i, Rc::clone(&tokens[i]));
            let d2 = Dropable::with_token(i + 100, Rc::clone(&tokens[i + 100]));
            hm.insert(d1, d2);
        }
        for i in 0..200 {
            assert_eq!(live(&tokens)[i], 1);
        }
        hm
    };

    // A clone holds its own copies and leaves the original's alone.
    let copy = hm.clone();
    assert_eq!(copy.len(), 100);
    for i in 0..200 {
        assert_eq!(live(&tokens)[i], 2);
    }
    drop(copy);

    {
        let mut half = hm.into_entries().into_iter().take(50);
        for i in 0..200 {
            assert_eq!(live(&tokens)[i], 1);
        }
        for _ in half.by_ref() {}

        let counts = live(&tokens);
        let nk = (0..100).filter(|&i| counts[i] == 1).count();
        let nv = (0..100).filter(|&i| counts[i + 100] == 1).count();
        assert_eq!(nk, 50);
        assert_eq!(nv, 50);
    }
    for i in 0..200 {
        assert_eq!(live(&tokens)[i], 0);
    }
}

#[test]
fn test_empty_pop() {
    let mut m: CHashMap<isize, bool> = CHashMap::new();
    assert_eq!(m.remove(&0), None);
}

#[test]
fn test_lots_of_insertions() {
    let mut m = CHashMap::new();

    for _ in 0..10 {
        assert!(m.is_empty());

        for i in 1..1001 {
            assert!(m.insert(i, i).is_none());

            for j in 1..i + 1 {
                let r = m.get(&j);
                assert_eq!(r, Some(&j));
            }

            for j in i + 1..1001 {
                let r = m.get(&j);
                assert_eq!(r, None);
            }
        }

        for i in 1001..2001 {
            assert!(!m.contains_key(&i));
        }

        // remove forwards
        for i in 1..1001 {
            assert!(m.remove(&i).is_some());

            for j in 1..i + 1 {
                assert!(!m.contains_key(&j));
            }

            for j in i + 1..1001 {
                assert!(m.contains_key(&j));
            }
        }

        for i in 1..1001 {
            assert!(!m.contains_key(&i));
        }

        for i in 1..1001 {
            assert!(m.insert(i, i).is_none());
        }

        // remove backwards
        for i in (1..1001).rev() {
            assert!(m.remove(&i).is_some());

            for j in i..1001 {
                assert!(!m.contains_key(&j));
            }

            for j in 1..i {
                assert!(m.contains_key(&j));
            }
        }
    }
}

#[test]
fn test_find_mut() {
    let mut m = CHashMap::new();
    assert!(m.insert(1, 12).is_none());
    assert!(m.insert(2, 8).is_none());
    assert!(m.insert(5, 14).is_none());
    let new = 100;
    match m.get_mut(&5) {
        None => panic!(),
        Some(x) => *x = new,
    }
    assert_eq!(m.get(&5), Some(&new));
}

#[test]
fn test_insert_overwrite() {
    let mut m = CHashMap::new();
    assert!(m.insert(1, 2).is_none());
    assert_eq!(*m.get(&1).unwrap(), 2);
    assert!(!m.insert(1, 3).is_none());
    assert_eq!(*m.get(&1).unwrap(), 3);
}

#[test]
fn test_insert_conflicts() {
    let mut m = CHashMap::with_capacity(4);
    assert!(m.insert(1, 2).is_none());
    assert!(m.insert(5, 3).is_none());
    assert!(m.insert(9, 4).is_none());
    assert_eq!(*m.get(&9).unwrap(), 4);
    assert_eq!(*m.get(&5).unwrap(), 3);
    assert_eq!(*m.get(&1).unwrap(), 2);
}

#[test]
fn test_conflict_remove() {
    let mut m = CHashMap::with_capacity(4);
    assert!(m.insert(1, 2).is_none());
    assert_eq!(*m.get(&1).unwrap(), 2);
    assert!(m.insert(5, 3).is_none());
    assert_eq!(*m.get(&1).unwrap(), 2);
    assert_eq!(*m.get(&5).unwrap(), 3);
    assert!(m.insert(9, 4).is_none());
    assert_eq!(*m.get(&1).unwrap(), 2);
    assert_eq!(*m.get(&5).unwrap(), 3);
    assert_eq!(*m.get(&9).unwrap(), 4);
    assert!(m.remove(&1).is_some());
    assert_eq!(*m.get(&9).unwrap(), 4);
    assert_eq!(*m.get(&5).unwrap(), 3);
}

#[test]
fn test_is_empty() {
    let mut m = CHashMap::with_capacity(4);
    assert!(m.insert(1, 2).is_none());
    assert!(!m.is_empty());
    assert!(m.remove(&1).is_some());
    assert!(m.is_empty());
}

#[test]
fn test_pop() {
    let mut m = CHashMap::new();
    m.insert(1, 2);
    assert_eq!(m.remove(&1), Some(2));
    assert_eq!(m.remove(&1), None);
}

#[test]
fn test_keys() {
    let vec = vec![(1, 'a'), (2, 'b'), (3, 'c')];
    let map = CHashMap::from_pairs(vec);
    let keys: Vec<i32> = map.keys().into_iter().cloned().collect();
    assert_eq!(keys.len(), 3);
    assert!(keys.contains(&1));
    assert!(keys.contains(&2));
    assert!(keys.contains(&3));
}

#[test]
fn test_values() {
    let vec = vec![(1, 'a'), (2, 'b'), (3, 'c')];
    let map = CHashMap::from_pairs(vec);
    let values: Vec<char> = map.values().into_iter().cloned().collect();
    assert_eq!(values.len(), 3);
    assert!(values.contains(&'a'));
    assert!(values.contains(&'b'));
    assert!(values.contains(&'c'));
}

#[test]
fn test_find() {
    let mut m = CHashMap::new();
    assert!(m.get(&1).is_none());
    m.insert(1, 2);
    match m.get(&1) {
        None => panic!(),
        Some(v) => assert_eq!(*v, 2),
    }
}

#[test]
fn test_expand() {
    let mut m = CHashMap::new();

    assert_eq!(m.len(), 0);
    assert!(m.is_empty());

    let mut i = 0;
    let old_cap = m.capacity();
    while old_cap == m.capacity() {
        m.insert(i, i);
        i += 1;
    }

    assert_eq!(m.len(), i as usize);
    assert!(!m.is_empty());
}

#[test]
fn test_behavior_resize_policy() {
    let mut m = CHashMap::new();

    assert_eq!(m.len(), 0);
    assert_eq!(m.capacity(), 0);
    assert!(m.is_empty());

    m.insert(0, 0);
    m.remove(&0);
    assert!(m.is_empty());
    let initial_cap = m.capacity();
    m.reserve(initial_cap);
    let cap = m.capacity();

    assert_eq!(cap, initial_cap * 2);

    let mut i = 0;
    for _ in 0..cap * 3 / 4 {
        m.insert(i, i);
        i += 1;
    }
    // three quarters full

    assert_eq!(m.len(), i as usize);
    assert_eq!(m.capacity(), cap);

    for _ in 0..cap / 4 {
        m.insert(i, i);
        i += 1;
    }
    // half full

    let new_cap = m.capacity();
    assert_eq!(new_cap, cap * 2);

    for _ in 0..cap / 2 - 1 {
        i -= 1;
        m.remove(&i);
        assert_eq!(m.capacity(), new_cap);
    }
    // A little more than one quarter full.
    m.shrink_to_fit();
    assert_eq!(m.capacity(), cap);
    // again, a little more than half full
    for _ in 0..cap / 2 - 1 {
        i -= 1;
        m.remove(&i);
    }
    m.shrink_to_fit();

    assert_eq!(m.len(), i as usize);
    assert!(!m.is_empty());
    assert_eq!(m.capacity(), initial_cap);
}

#[test]
fn test_reserve_shrink_to_fit() {
    let mut m = CHashMap::new();
    m.insert(0, 0);
    m.remove(&0);
    assert!(m.capacity() >= m.len());
    for i in 0..128 {
        m.insert(i, i);
    }
    m.reserve(256);

    let usable_cap = m.capacity();
    for i in 128..(128 + 256) {
        m.insert(i, i);
        assert_eq!(m.capacity(), usable_cap);
    }

    for i in 100..(128 + 256) {
        assert_eq!(m.remove(&i), Some(i));
    }
    m.shrink_to_fit();

    assert_eq!(m.len(), 100);
    assert!(!m.is_empty());
    assert!(m.capacity() >= m.len());

    for i in 0..100 {
        assert_eq!(m.remove(&i), Some(i));
    }
    m.shrink_to_fit();
    m.insert(0, 0);

    assert_eq!(m.len(), 1);
    assert!(m.capacity() >= m.len());
    assert_eq!(m.remove(&0), Some(0));
}

#[test]
fn test_from_iter() {
    let xs = [(1, 1), (2, 2), (3, 3), (4, 4), (5, 5), (6, 6)];

    let map = CHashMap::from_pairs(xs.to_vec());

    for &(k, v) in &xs {
        assert_eq!(map.get(&k), Some(&v));
    }
}

#[test]
fn test_size_hint() {
    let xs = [(1, 1), (2, 2), (3, 3), (4, 4), (5, 5), (6, 6)];

    let map = CHashMap::from_pairs(xs.to_vec());

    let mut iter = map.iter();

    for _ in 0..3 {
        iter.next();
    }

    assert_eq!(iter.size_hint(), (3, Some(3)));
}

#[test]
fn test_iter_len() {
    let xs = [(1, 1), (2, 2), (3, 3), (4, 4), (5, 5), (6, 6)];

    let map = CHashMap::from_pairs(xs.to_vec());

    let mut iter = map.iter();

    for _ in 0..3 {
        iter.next();
    }

    assert_eq!(iter.len(), 3);
}

#[test]
fn test_capacity_not_less_than_len() {
    let mut a = CHashMap::new();
    let mut item = 0;

    for _ in 0..116 {
        a.insert(item, 0);
        item += 1;
    }

    assert!(a.capacity() > a.len());

    // Fill up to the load limit: no growth yet.
    let cap = a.capacity();
    let free = cap * 3 / 4 - a.len();
    for _ in 0..free {
        a.insert(item, 0);
        item += 1;
    }

    assert_eq!(a.len(), cap * 3 / 4);
    assert_eq!(a.capacity(), cap);

    // The insert that crosses the limit causes allocation.
    a.insert(item, 0);
    assert!(a.capacity() > cap);
    assert!(a.capacity() > a.len());
}

#[test]
fn clone_is_independent() {
    let tokens: Vec<Rc<()>> = (0..4).map(|_| Rc::new(())).collect();
    let mut m = CHashMap::new();
    m.insert(Dropable::with_token(0, Rc::clone(&tokens[0])), 'a');
    m.insert(Dropable::with_token(1, Rc::clone(&tokens[1])), 'b');
    let mut c = m.clone();
    assert_eq!(live(&tokens), vec![2, 2, 0, 0]);
    c.remove(&Dropable::new(0));
    c.insert(Dropable::with_token(2, Rc::clone(&tokens[2])), 'c');
    assert_eq!(live(&tokens), vec![1, 2, 1, 0]);
    assert_eq!(m.get(&Dropable::new(0)), Some(&'a'));
    assert!(!m.contains_key(&Dropable::new(2)));
    assert_eq!(c.get(&Dropable::new(1)), Some(&'b'));
    drop(c);
    assert_eq!(live(&tokens), vec![1, 1, 0, 0]);
}

#[test]
fn dropable_clone_keeps_tag_and_token() {
    let token = Rc::new(());
    let d = Dropable::with_token(7, Rc::clone(&token));
    let e = d.clone();
    assert_eq!(e.k, 7);
    assert!(Rc::ptr_eq(&d.token, &e.token));
    assert_eq!(Rc::strong_count(&token), 3);
}
