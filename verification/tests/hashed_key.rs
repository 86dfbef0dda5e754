use persistent::hash_map::hashed_key::HashedKey;
use persistent::hash_map::hashed_key::MAX_LEVEL;
use persistent::hash_map::key::Key;

#[test]
fn hashed_key_starts_at_the_root() {
    let k = HashedKey::new(42u64);

    assert_eq!(*k.key(), 42);
    assert_eq!(k.level(), 0);
    assert_eq!(k.hash, 42u64.hash());
    assert_eq!(k.entry_index(), (42u64.hash() & 31) as usize);
}

#[test]
fn hashed_key_drops_five_bits_with_each_level() {
    let full = 42u64.hash();
    let mut k = HashedKey::new(42u64);

    for level in 0..MAX_LEVEL {
        assert_eq!(k.level(), level);
        assert_eq!(k.hash, full >> (5 * level as u64));
        assert_eq!(k.entry_index(), ((full >> (5 * level as u64)) & 31) as usize);
        k = k.increment_level();
    }

    assert_eq!(k.level(), 12);
    assert_eq!(k.hash, full >> 60);
    assert!(k.entry_index() < 16);
    assert_eq!(k.to_key(), 42);
}

#[test]
fn hashed_key_swaps_the_key_at_its_level() {
    let k = HashedKey::new(1u64).increment_level().increment_level();
    let other = k.swap_key(2u64);

    assert_eq!(*other.key(), 2);
    assert_eq!(other.level(), 2);
    assert_eq!(other.hash, 2u64.hash() >> 10);
    assert_eq!(
        other,
        HashedKey::new(2u64).increment_level().increment_level()
    );
}

#[test]
fn equal_keys_hash_equally() {
    assert_eq!(7usize.hash(), 7usize.hash());
    assert_eq!((-3i16).hash(), (-3i16).hash());
    assert_eq!((&7u32).hash(), 7u32.hash());
    assert_ne!(1u64.hash(), 2u64.hash());
}

#[test]
fn keys_of_each_kind_hash() {
    assert_ne!(true.hash(), false.hash());
    assert_eq!(true.hash(), 1u8.hash());
    assert_eq!(5u128.hash(), 5u128.hash());
    assert_eq!((-1i128).hash(), u128::MAX.hash());
    assert_eq!((-1i8).hash(), 255u8.hash());
    assert_eq!(7usize.hash(), 7u64.hash());
    assert_eq!((-2isize).hash(), (-2i64).hash());
    assert_ne!(7u16.hash(), 7u32.hash());
}
