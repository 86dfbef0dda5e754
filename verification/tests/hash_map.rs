use persistent::hash_map::key::Key;
use persistent::hash_map::HashMap;
use rand::random;
use rand::seq::SliceRandom;
use rand::thread_rng;

const NUM_ITERATIONS: usize = 1 << 12;

#[test]
fn hash_map_new() {
    HashMap::<usize, usize>::new();
}

#[test]
fn hash_map_insert() {
    let h = HashMap::new();

    assert_eq!(h.size(), 0);
    assert_eq!(h.insert(0, 0).size(), 1);
    assert_eq!(h.insert(0, 0).insert(0, 0).size(), 1);
    assert_eq!(h.insert(0, 0).insert(1, 0).size(), 2);
}

#[test]
fn hash_map_insert_many_in_order() {
    let mut h = HashMap::new();

    for i in 0..NUM_ITERATIONS {
        h = h.insert(i, i);
        assert_eq!(h.size(), i + 1);
    }
}

#[test]
fn hash_map_insert_many_at_random() {
    let mut h: HashMap<usize, usize> = HashMap::new();

    for i in 0..NUM_ITERATIONS {
        let k = random();
        h = h.insert(k, k);
        assert_eq!(h.size(), i + 1);
    }
}

#[test]
fn hash_map_remove() {
    let h = HashMap::new();

    assert_eq!(h.insert(0, 0).remove(&0), Some(h.clone()));
    assert_eq!(h.insert(0, 0).remove(&1), None);
    assert_eq!(h.insert(0, 0).insert(1, 0).remove(&0), Some(h.insert(1, 0)));
    assert_eq!(h.insert(0, 0).insert(1, 0).remove(&1), Some(h.insert(0, 0)));
    assert_eq!(h.insert(0, 0).insert(1, 0).remove(&2), None);
}

#[test]
fn hash_map_insert_remove_many() {
    let mut h: HashMap<i16, i16> = HashMap::new();

    for _ in 0..NUM_ITERATIONS {
        let k = random();
        let s = h.size();
        let found = h.get(&k).is_some();

        if random() {
            h = h.insert(k, k);

            assert_eq!(h.size(), if found { s } else { s + 1 });
            assert_eq!(h.get(&k), Some(&k));
        } else {
            h = h.remove(&k).unwrap_or(h);

            assert_eq!(h.size(), if found { s - 1 } else { s });
            assert_eq!(h.get(&k), None);
        }
    }
}

#[test]
fn hash_map_get() {
    let h = HashMap::new();

    assert_eq!(h.insert(0, 0).get(&0), Some(&0));
    assert_eq!(h.insert(0, 0).get(&1), None);
    assert_eq!(h.insert(1, 0).get(&0), None);
    assert_eq!(h.insert(1, 0).get(&1), Some(&0));
    assert_eq!(h.insert(0, 0).insert(1, 0).get(&0), Some(&0));
    assert_eq!(h.insert(0, 0).insert(1, 0).get(&1), Some(&0));
    assert_eq!(h.insert(0, 0).insert(1, 0).get(&2), None);
}

#[test]
fn first_rest() {
    let mut h: HashMap<i16, i16> = HashMap::new();

    for _ in 0..NUM_ITERATIONS {
        h = h.insert(random(), 0);
    }

    for _ in 0..h.size() {
        let r = {
            let (k, _, r) = h.first_rest().unwrap();

            assert_eq!(r.size(), h.size() - 1);
            assert_eq!(r.get(k), None);

            r
        };

        h = r;
    }

    assert_eq!(h, HashMap::new());
}

#[test]
fn hash_map_equality() {
    for _ in 0..8 {
        let mut hs: [HashMap<i16, i16>; 2] = [HashMap::new(), HashMap::new()];
        let mut is: Vec<i16> = (0..NUM_ITERATIONS).map(|_| random()).collect();
        let mut ds: Vec<i16> = (0..NUM_ITERATIONS).map(|_| random()).collect();

        for h in hs.iter_mut() {
            is.shuffle(&mut thread_rng());
            ds.shuffle(&mut thread_rng());

            for i in &is {
                *h = h.insert(*i, *i);
            }

            for d in &ds {
                *h = h.remove(d).unwrap_or(h.clone());
            }
        }

        assert_eq!(hs[0], hs[1]);
    }
}

#[test]
fn mod_new() {
    HashMap::<usize, usize>::new();
    persistent::vec::Vec::<usize>::new();
}

#[test]
fn mod_insert() {
    let h = HashMap::new();

    assert_eq!(h.len(), 0);
    assert_eq!(h.insert(0, 0).len(), 1);
    assert_eq!(h.insert(0, 0).insert(0, 0).len(), 1);
    assert_eq!(h.insert(0, 0).insert(1, 0).len(), 2);
}

#[test]
fn mod_insert_many_in_order() {
    let mut h = HashMap::new();

    for i in 0..NUM_ITERATIONS {
        h = h.insert(i, i);
        assert_eq!(h.len(), i + 1);
    }
}

#[test]
fn mod_insert_many_at_random() {
    let mut h: HashMap<usize, usize> = HashMap::new();

    for i in 0..NUM_ITERATIONS {
        let k = random();
        h = h.insert(k, k);
        assert_eq!(h.len(), i + 1);
    }
}

#[test]
fn mod_remove() {
    let h = HashMap::new();

    assert_eq!(h.insert(0, 0).remove(&0), Some(h.clone()));
    assert_eq!(h.insert(0, 0).remove(&1), None);
    assert_eq!(h.insert(0, 0).insert(1, 0).remove(&0), Some(h.insert(1, 0)));
    assert_eq!(h.insert(0, 0).insert(1, 0).remove(&1), Some(h.insert(0, 0)));
    assert_eq!(h.insert(0, 0).insert(1, 0).remove(&2), None);
}

#[test]
fn mod_insert_remove_many() {
    let mut h: HashMap<i16, i16> = HashMap::new();

    for _ in 0..NUM_ITERATIONS {
        let k = random();
        let s = h.len();
        let found = h.get(&k).is_some();

        if random() {
            h = h.insert(k, k);

            assert_eq!(h.len(), if found { s } else { s + 1 });
            assert_eq!(h.get(&k), Some(&k));
        } else {
            h = h.remove(&k).unwrap_or(h);

            assert_eq!(h.len(), if found { s - 1 } else { s });
            assert_eq!(h.get(&k), None);
        }
    }
}

#[test]
fn mod_get() {
    let h = HashMap::new();

    assert_eq!(h.insert(0, 0).get(&0), Some(&0));
    assert_eq!(h.insert(0, 0).get(&1), None);
    assert_eq!(h.insert(1, 0).get(&0), None);
    assert_eq!(h.insert(1, 0).get(&1), Some(&0));
    assert_eq!(h.insert(0, 0).insert(1, 0).get(&0), Some(&0));
    assert_eq!(h.insert(0, 0).insert(1, 0).get(&1), Some(&0));
    assert_eq!(h.insert(0, 0).insert(1, 0).get(&2), None);
}

#[test]
fn mod_equality() {
    for _ in 0..8 {
        let mut hs: [HashMap<i16, i16>; 2] = [HashMap::new(), HashMap::new()];
        let mut is: Vec<i16> = (0..NUM_ITERATIONS).map(|_| random()).collect();
        let mut ds: Vec<i16> = (0..NUM_ITERATIONS).map(|_| random()).collect();

        for h in hs.iter_mut() {
            is.shuffle(&mut thread_rng());
            ds.shuffle(&mut thread_rng());

            for i in &is {
                *h = h.insert(*i, *i);
            }

            for d in &ds {
                *h = h.remove(d).unwrap_or(h.clone());
            }
        }

        assert_eq!(hs[0], hs[1]);
    }
}

#[test]
fn an_empty_map_holds_nothing() {
    let m0: HashMap<u8, i32> = HashMap::new();

    assert_eq!(m0.get(&b'a'), None);
    assert_eq!(m0.size(), 0);
    assert!(m0.is_empty());
    assert!(m0.first_rest().is_none());
    assert_eq!(m0, HashMap::default());
}

#[test]
fn an_insertion_is_seen_by_the_new_map() {
    let m0: HashMap<u8, i32> = HashMap::new();
    let m1 = m0.insert(b'a', 1);

    assert_eq!(m1.get(&b'a'), Some(&1));
    assert_eq!(m1.size(), 1);
    assert!(!m1.is_empty());
    assert_eq!(m0.get(&b'a'), None);
    assert_eq!(m0.size(), 0);
}

#[test]
fn an_overwrite_leaves_the_old_map_as_it_was() {
    let m1: HashMap<u8, i32> = HashMap::new().insert(b'a', 1);
    let m2 = m1.insert(b'a', 2);

    assert_eq!(m2.size(), 1);
    assert_eq!(m2.get(&b'a'), Some(&2));
    assert_eq!(m1.get(&b'a'), Some(&1));
    assert!(m1 != m2);
}

#[test]
fn a_removal_gives_back_the_empty_map() {
    let m0: HashMap<u8, i32> = HashMap::new();
    let m2 = m0.insert(b'a', 1).insert(b'a', 2);
    let m3 = m2.remove(&b'a').unwrap();

    assert_eq!(m3, m0);
    assert_eq!(m3.size(), 0);
    assert_eq!(m2.get(&b'a'), Some(&2));
}

#[test]
fn removing_a_new_key_gives_back_an_equal_map() {
    let mut m: HashMap<u32, u32> = HashMap::new();

    for k in 0..300 {
        m = m.insert(k * 7, k);
    }

    for k in 0..300 {
        let key = k * 7 + 1;

        assert_eq!(m.get(&key), None);
        assert_eq!(m.insert(key, 0).remove(&key), Some(m.clone()));
    }
}

#[test]
fn the_size_grows_only_with_new_keys() {
    let mut m: HashMap<u16, u16> = HashMap::new();

    for k in 0..200 {
        let s = m.size();
        m = m.insert(k % 50, k);
        assert_eq!(m.size(), if k < 50 { s + 1 } else { s });
        assert_eq!(m.get(&(k % 50)), Some(&k));
    }

    assert_eq!(m.size(), 50);
}

#[test]
fn maps_built_in_different_orders_are_equal() {
    let mut a: HashMap<i64, i64> = HashMap::new();
    let mut b: HashMap<i64, i64> = HashMap::new();

    for k in 0..1000 {
        a = a.insert(k, -k);
    }

    for k in (0..1000).rev() {
        b = b.insert(k, 0).insert(k, -k);
    }

    b = b.insert(5000, 1).remove(&5000).unwrap();

    assert_eq!(a, b);
    assert!(a != b.insert(0, 1));
    assert!(a != b.remove(&0).unwrap());
}

#[test]
fn a_walk_gives_as_many_pairs_as_the_size() {
    let mut m: HashMap<usize, usize> = HashMap::new();

    for k in 0..777 {
        m = m.insert(k, k + 1);
    }

    let later = m.insert(1000, 0);
    let mut seen = vec![false; 777];
    let mut count = 0;
    let mut iterator = m.iter();

    while let Some((k, v)) = iterator.next() {
        assert!(!seen[*k]);
        assert_eq!(m.get(k), Some(v));
        seen[*k] = true;
        count += 1;
    }

    assert_eq!(count, m.size());
    assert_eq!(later.size(), 778);

    let mut again = 0;
    let mut iterator = m.iter();

    while iterator.next().is_some() {
        again += 1;
    }

    assert_eq!(again, 777);
}

#[test]
fn first_rest_gives_the_first_pair_of_a_walk() {
    let mut m: HashMap<u8, u8> = HashMap::new();

    for k in 0..100 {
        m = m.insert(k, k);
    }

    let first = {
        let mut iterator = m.iter();
        let (k, v) = iterator.next().unwrap();
        (*k, *v)
    };
    let (k, v, rest) = m.first_rest().unwrap();

    assert_eq!((*k, *v), first);
    assert_eq!(rest.size(), 99);
    assert_eq!(rest.get(k), None);
    assert_eq!(Some(rest), m.remove(k));
}

fn is_send_and_sync<T: Send + Sync>(_: &T) -> bool {
    true
}

#[test]
fn a_map_can_go_to_another_thread() {
    let m: HashMap<usize, usize> = HashMap::new().insert(1, 2);
    let v = persistent::vec::Vec::<usize>::new().push_back(1);

    assert!(is_send_and_sync(&m));
    assert!(is_send_and_sync(&v));
}

#[test]
fn maps_of_other_keys() {
    let m: HashMap<bool, u128> = HashMap::new().insert(true, 1).insert(false, 2);

    assert_eq!(m.get(&true), Some(&1));
    assert_eq!(m.get(&false), Some(&2));
    assert_eq!(m.len(), 2);

    let m: HashMap<i128, bool> = HashMap::new().insert(-1, true);

    assert_eq!(m.get(&-1), Some(&true));
    assert_eq!(m.get(&1), None);
}

fn chunks(k: u32) -> Vec<u64> {
    let hash = Key::hash(&k);

    (0..13).map(|level| (hash >> (5 * level)) & 31).collect()
}

#[test]
fn a_walk_goes_by_the_chunks_of_the_hashes() {
    let mut m: HashMap<u32, u32> = HashMap::new();

    for k in 0..3000 {
        m = m.insert(k, k);
    }

    let mut iterator = m.iter();
    let mut last = chunks(*iterator.next().unwrap().0);
    let mut count = 1;

    while let Some((k, _)) = iterator.next() {
        let next = chunks(*k);

        assert!(last <= next);
        last = next;
        count += 1;
    }

    assert_eq!(count, 3000);
}

#[test]
fn values_that_may_be_missing() {
    let m: HashMap<u8, Option<u8>> = HashMap::new().insert(1, Some(2)).insert(3, None);

    assert_eq!(m.get(&1), Some(&Some(2)));
    assert_eq!(m.get(&3), Some(&None));
    assert_eq!(m.insert(3, Some(0)).remove(&3).unwrap(), m.remove(&3).unwrap());
}
