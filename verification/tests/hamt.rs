use persistent::hash_map::hamt::HAMT;
use persistent::hash_map::hashed_key::HashedKey;
use persistent::hash_map::hashed_key::MAX_LEVEL;
use rand::random;
use rand::seq::SliceRandom;
use rand::thread_rng;
use std::collections::HashMap;

const NUM_ITERATIONS: usize = 1 << 12;

#[test]
fn hamt_new() {
    let _: HAMT<usize, usize> = HAMT::new();
}

#[test]
fn hamt_insert() {
    let h = HAMT::new();

    assert_eq!(h.len(), 0);

    let (h, b) = h.insert(HashedKey::new(0), 0);

    assert!(b);
    assert_eq!(h.len(), 1);

    let (hh, b) = h.insert(HashedKey::new(0), 0);

    assert!(!b);
    assert_eq!(hh.len(), 1);

    let (h, b) = h.insert(HashedKey::new(1), 0);

    assert!(b);
    assert_eq!(h.len(), 2);
}

#[test]
fn hamt_insert_many_in_order() {
    let mut h = HAMT::new();

    for i in 0..NUM_ITERATIONS {
        let (hh, b) = h.insert(HashedKey::new(i), i);
        h = hh;
        assert!(b);
        assert_eq!(h.len(), i + 1);
    }
}

#[test]
fn hamt_insert_many_at_random() {
    let mut h: HAMT<usize, usize> = HAMT::new();

    for i in 0..NUM_ITERATIONS {
        let k = random();
        h = h.insert(HashedKey::new(k), k).0;
        assert_eq!(h.len(), i + 1);
    }
}

#[test]
fn hamt_remove() {
    let h = HAMT::new();

    assert_eq!(
        h.insert(HashedKey::new(0), 0).0.remove(HashedKey::new(&0)),
        Some(h.clone())
    );
    assert_eq!(
        h.insert(HashedKey::new(0), 0).0.remove(HashedKey::new(&1)),
        None
    );
    assert_eq!(
        h.insert(HashedKey::new(0), 0)
            .0
            .insert(HashedKey::new(1), 0)
            .0
            .remove(HashedKey::new(&0)),
        Some(h.insert(HashedKey::new(1), 0).0)
    );
    assert_eq!(
        h.insert(HashedKey::new(0), 0)
            .0
            .insert(HashedKey::new(1), 0)
            .0
            .remove(HashedKey::new(&1)),
        Some(h.insert(HashedKey::new(0), 0).0)
    );
    assert_eq!(
        h.insert(HashedKey::new(0), 0)
            .0
            .insert(HashedKey::new(1), 0)
            .0
            .remove(HashedKey::new(&2)),
        None
    );
}

#[test]
fn insert_delete_many() {
    let mut h: HAMT<i16, i16> = HAMT::new();

    for _ in 0..NUM_ITERATIONS {
        let k = random();
        let s = h.len();
        let found = h.get(HashedKey::new(&k)).is_some();

        if random() {
            h = h.insert(HashedKey::new(k), k).0;

            assert_eq!(h.len(), if found { s } else { s + 1 });
            assert_eq!(h.get(HashedKey::new(&k)), Some(&k));
        } else {
            h = h.remove(HashedKey::new(&k)).unwrap_or(h);

            assert_eq!(h.len(), if found { s - 1 } else { s });
            assert_eq!(h.get(HashedKey::new(&k)), None);
        }

        assert!(h.is_normal());
    }
}

#[test]
fn hamt_get() {
    let h = HAMT::new();

    assert_eq!(
        h.insert(HashedKey::new(0), 0).0.get(HashedKey::new(&0)),
        Some(&0)
    );
    assert_eq!(
        h.insert(HashedKey::new(0), 0).0.get(HashedKey::new(&1)),
        None
    );
    assert_eq!(
        h.insert(HashedKey::new(1), 0).0.get(HashedKey::new(&0)),
        None
    );
    assert_eq!(
        h.insert(HashedKey::new(1), 0).0.get(HashedKey::new(&1)),
        Some(&0)
    );
    assert_eq!(
        h.insert(HashedKey::new(0), 0)
            .0
            .insert(HashedKey::new(1), 0)
            .0
            .get(HashedKey::new(&0)),
        Some(&0)
    );
    assert_eq!(
        h.insert(HashedKey::new(0), 0)
            .0
            .insert(HashedKey::new(1), 0)
            .0
            .get(HashedKey::new(&1)),
        Some(&0)
    );
    assert_eq!(
        h.insert(HashedKey::new(0), 0)
            .0
            .insert(HashedKey::new(1), 0)
            .0
            .get(HashedKey::new(&2)),
        None
    );
}

#[test]
fn hamt_equality() {
    for _ in 0..8 {
        let mut hs: [HAMT<i16, i16>; 2] = [HAMT::new(), HAMT::new()];
        let mut is: Vec<i16> = (0..NUM_ITERATIONS).map(|_| random()).collect();
        let mut ds: Vec<i16> = (0..NUM_ITERATIONS).map(|_| random()).collect();

        for h in hs.iter_mut() {
            is.shuffle(&mut thread_rng());
            ds.shuffle(&mut thread_rng());

            for i in &is {
                *h = h.insert(HashedKey::new(*i), *i).0;
            }

            for d in &ds {
                *h = h.remove(HashedKey::new(&d)).unwrap_or(h.clone());
            }
        }

        assert_eq!(hs[0], hs[1]);
    }
}

#[test]
fn collision() {
    let mut h = HAMT::new();

    for k in 0..33 {
        let mut hk = HashedKey::new(k);

        for _ in 0..MAX_LEVEL {
            hk = hk.increment_level()
        }

        h = h.insert(hk, k).0;
    }

    assert!(h.contain_bucket());
}

#[test]
fn hamt_iterator() {
    let mut ss: Vec<usize> = (0..42).collect();

    for _ in 0..100 {
        ss.push(random::<usize>() % 1024);
    }

    for l in vec![0, MAX_LEVEL] {
        for s in &ss {
            let mut h: HAMT<i16, i16> = HAMT::new();
            let mut m: HashMap<i16, i16> = HashMap::new();

            for _ in 0..*s {
                let k = random();
                let v = random();

                let mut hk = HashedKey::new(k);

                for _ in 0..l {
                    hk = hk.increment_level()
                }

                let (hh, _) = h.insert(hk, v);
                h = hh;

                m.insert(k, v);
            }

            let mut s = 0;
            let mut iterator = h.iter();

            while let Some((k, v)) = iterator.next() {
                s += 1;

                assert_eq!(m[k], *v);
            }

            assert_eq!(s, h.len());
        }
    }
}

#[test]
fn iterate_with_buckets() {
    let ks = (0..1000).collect::<Vec<_>>();

    let mut h = HAMT::new();

    for k in &ks {
        let mut hk = HashedKey::new(k);

        for _ in 0..MAX_LEVEL {
            hk = hk.increment_level()
        }
        h = h.insert(hk, k).0;
    }

    let mut pairs = vec![];
    let mut iterator = h.iter();

    while let Some(pair) = iterator.next() {
        pairs.push(pair);
    }

    assert_eq!(ks.len(), pairs.len())
}

#[test]
fn colliding_keys_stay_retrievable() {
    let mut h = HAMT::new();

    for k in 0..2000u64 {
        let mut hk = HashedKey::new(k);

        for _ in 0..MAX_LEVEL {
            hk = hk.increment_level()
        }

        h = h.insert(hk, k + 1).0;
    }

    assert_eq!(h.len(), 2000);
    assert!(h.contain_bucket());
    assert!(h.is_normal());

    for k in 0..2000u64 {
        let mut hk = HashedKey::new(&k);

        for _ in 0..MAX_LEVEL {
            hk = hk.increment_level()
        }

        assert_eq!(h.get(hk), Some(&(k + 1)));
    }
}

#[test]
fn removal_collapses_a_bucket_with_one_pair() {
    let at_deepest = |k: u64| {
        let mut hk = HashedKey::new(k);

        for _ in 0..MAX_LEVEL {
            hk = hk.increment_level()
        }

        hk
    };
    let deepest = |k: &'static u64| {
        let mut hk = HashedKey::new(k);

        for _ in 0..MAX_LEVEL {
            hk = hk.increment_level()
        }

        hk
    };
    let mut h = HAMT::new();

    for k in 0..17u64 {
        h = h.insert(at_deepest(k), k).0;
    }

    assert!(h.contain_bucket());

    const KEYS: [u64; 17] = [0, 1, 2, 3, 4, 5, 6, 7, 8, 9, 10, 11, 12, 13, 14, 15, 16];

    for k in KEYS.iter().skip(1) {
        h = h.remove(deepest(k)).unwrap();
        assert!(h.is_normal());
    }

    assert!(!h.contain_bucket());
    assert_eq!(h.len(), 1);
    assert_eq!(h, HAMT::new().insert(at_deepest(0), 0).0);
}

#[test]
fn a_walk_gives_each_pair_once() {
    let mut h: HAMT<u32, u32> = HAMT::new();

    for k in 0..500u32 {
        h = h.insert(HashedKey::new(k), k * 2).0;
    }

    let mut seen = vec![false; 500];
    let mut iterator = h.iter();

    while let Some((k, v)) = iterator.next() {
        assert!(!seen[*k as usize]);
        assert_eq!(*v, *k * 2);
        assert_eq!(h.get(HashedKey::new(k)), Some(v));
        seen[*k as usize] = true;
    }

    assert!(seen.iter().all(|s| *s));
    assert_eq!(iterator.next(), None);
}

#[test]
fn first_rest_empties_a_node_pair_by_pair() {
    let mut h: HAMT<u16, u16> = HAMT::new();

    for k in 0..300 {
        h = h.insert(HashedKey::new(k), k + 1).0;
    }

    let mut seen = vec![false; 300];

    for n in (0..300).rev() {
        let rest = {
            let first = {
                let mut iterator = h.iter();
                let (k, v) = iterator.next().unwrap();
                (*k, *v)
            };
            let (k, v, rest) = h.first_rest().unwrap();

            assert_eq!((*k, *v), first);
            assert_eq!(*v, *k + 1);
            assert!(!seen[*k as usize]);
            seen[*k as usize] = true;
            assert_eq!(rest.len(), n);
            assert_eq!(rest.get(HashedKey::new(k)), None);
            assert!(rest.is_normal());
            assert_eq!(Some(rest.clone()), h.remove(HashedKey::new(k)));

            rest
        };

        h = rest;
    }

    assert!(h.first_rest().is_none());
    assert_eq!(h, HAMT::new());
}

#[test]
fn an_insertion_changes_one_slot_of_the_root() {
    let mut h: HAMT<u64, u64> = HAMT::new();

    for k in 0..64 {
        h = h.insert(HashedKey::new(k), k).0;
    }

    let (hh, new) = h.insert(HashedKey::new(1000), 0);

    assert!(new);
    assert_eq!(hh.len(), 65);
    assert_eq!(h.len(), 64);
    assert_eq!(h.get(HashedKey::new(&1000)), None);
    assert_eq!(hh.remove(HashedKey::new(&1000)), Some(h));
}
