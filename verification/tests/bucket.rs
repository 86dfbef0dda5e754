use persistent::hash_map::bucket::Bucket;

#[test]
fn bucket_new() {
    Bucket::new(42, 0);
}

#[test]
fn bucket_insert() {
    let b = Bucket::new(42, 0);

    assert_eq!(b.len(), 1);

    let (bb, new) = b.insert(0, 0);

    assert!(new);
    assert_eq!(b.len(), 1);
    assert_eq!(bb.len(), 2);
}

#[test]
fn bucket_remove() {
    let b = Bucket::new(42, 0);

    assert_eq!(b.remove(&42).unwrap().len(), 0);
    assert_eq!(b.insert(0, 0).0.remove(&42), Some(Bucket::new(0, 0)));
}

#[test]
fn bucket_get() {
    let b = Bucket::new(42, 0);

    assert_eq!(b.get(&42), Some(&0));
    assert_eq!(b.get(&0), None);
}

#[test]
fn eq() {
    assert!(Bucket::new(0, 0).insert(1, 0) == Bucket::new(0, 0).insert(1, 0));
    assert!(Bucket::new(0, 0).insert(1, 0) == Bucket::new(1, 0).insert(0, 0));
}

#[test]
fn bucket_insert_replaces_the_value_of_a_held_key() {
    let b = Bucket::new(42, 0).insert(7, 1).0;
    let (bb, new) = b.insert(42, 5);

    assert!(!new);
    assert_eq!(bb.len(), 2);
    assert_eq!(bb.get(&42), Some(&5));
    assert_eq!(bb.get(&7), Some(&1));
    assert_eq!(b.get(&42), Some(&0));
}

#[test]
fn bucket_remove_of_a_missing_key_gives_nothing() {
    let b = Bucket::new(42, 0);

    assert_eq!(b.remove(&1), None);
}

#[test]
fn bucket_equality_tells_values_and_sizes_apart() {
    assert!(Bucket::new(0, 0) != Bucket::new(0, 1));
    assert!(Bucket::new(0, 0) != Bucket::new(0, 0).insert(1, 0).0);
    assert!(Bucket::new(0, 0).insert(1, 0).0 != Bucket::new(0, 0).insert(2, 0).0);
}

#[test]
fn bucket_iterator_gives_the_pairs_in_order() {
    let b = Bucket::new(3, 30).insert(1, 10).0.insert(2, 20).0;
    let mut iterator = b.iter();
    let mut pairs = vec![];

    while let Some((k, v)) = iterator.next() {
        pairs.push((*k, *v));
    }

    assert_eq!(pairs, vec![(3, 30), (1, 10), (2, 20)]);
    assert_eq!(iterator.next(), None);
}

#[test]
fn bucket_first_rest_takes_the_first_pair() {
    let b = Bucket::new(3, 30).insert(1, 10).0.insert(2, 20).0;
    let (k, v, rest) = b.first_rest().unwrap();

    assert_eq!((*k, *v), (3, 30));
    assert_eq!(rest.len(), 2);
    assert_eq!(rest.get(&3), None);
    assert_eq!(rest, Bucket::new(1, 10).insert(2, 20).0);
    assert_eq!(b.len(), 3);

    let (_, _, rest) = rest.first_rest().unwrap();
    let (_, _, rest) = rest.first_rest().unwrap();

    assert_eq!(rest.len(), 0);
    assert!(rest.first_rest().is_none());
}
