use super::key::Key;
use vstd::prelude::*;

verus! {

/// The deepest level of the trie: beyond it the 64 bits of a hash are used up.
pub const MAX_LEVEL: u8 = 12;

/// The number of slots of a trie node: one for each value of a five-bit chunk.
pub const NUM_ENTRIES: usize = 32;

/// What is left of the full hash `hash` at `level`: the hash without its `level` lowest
/// five-bit chunks.
pub open spec fn hash_at(hash: u64, level: nat) -> u64 {
    hash >> ((5 * level) as u64)
}

/// The slot that the hash `hash` selects: its lowest five bits.
pub open spec fn slot_of(hash: u64) -> int {
    (hash & 0b11111) as int
}

/// The slot that `key` selects in a node at `level`.
pub open spec fn key_slot<K: Key>(key: K, level: nat) -> int {
    slot_of(hash_at(key.hash_spec(), level))
}

/// From `level` on, the hash of `a` does not send a walk to `b` first: at the first level
/// at which the two keys select different slots, `a` selects the lower one.
pub open spec fn walk_order<K: Key>(a: K, b: K, level: nat) -> bool
    decreases MAX_LEVEL - level,
{
    if key_slot(a, level) != key_slot(b, level) {
        key_slot(a, level) < key_slot(b, level)
    } else if level >= MAX_LEVEL {
        true
    } else {
        walk_order(a, b, level + 1)
    }
}

/// A key comes in the order of a walk with itself.
pub proof fn lemma_walk_order_self<K: Key>(a: K, level: nat)
    ensures
        walk_order(a, a, level),
    decreases MAX_LEVEL - level,
{
    if level < MAX_LEVEL {
        lemma_walk_order_self(a, level + 1);
    }
}

/// Every slot is an index into a node's entries.
pub proof fn lemma_slot_in_range(hash: u64)
    ensures
        0 <= slot_of(hash) < NUM_ENTRIES,
{
    assert(hash & 0b11111 < 32) by (bit_vector);
}

/// Dropping one more chunk of what is left at `level` gives what is left at the next level.
pub proof fn lemma_hash_at_next(hash: u64, level: nat)
    requires
        level < MAX_LEVEL,
    ensures
        hash_at(hash, level) >> 5 == hash_at(hash, level + 1),
{
    let a: u64 = (5 * level) as u64;
    assert((hash >> a) >> 5 == hash >> ((a + 5) as u64)) by (bit_vector)
        requires
            a <= 55,
    ;
}

/// A key together with what is left of its hash at some level of the trie.
#[derive(Clone, Debug, PartialEq, Eq)]
pub struct HashedKey<K> {
    pub key: K,
    pub hash: u64,
    pub level: u8,
}

impl<K: Key> HashedKey<K> {
    /// The hash is what is left of the key's full hash at the level, and the level is one
    /// of the trie.
    pub open spec fn wf(&self) -> bool {
        &&& self.level <= MAX_LEVEL
        &&& self.hash == hash_at(self.key.hash_spec(), self.level as nat)
    }

    /// Hashes `k` for a lookup that starts at the root.
    pub fn new(k: K) -> (r: Self)
        ensures
            r.key == k,
            r.level == 0,
            r.wf(),
    {
        let hash: u64 = Self::hash(&k);
        assert(hash >> 0 == hash) by (bit_vector);
        Self { hash, key: k, level: 0 }
    }

    pub fn key(&self) -> (k: &K)
        ensures
            *k == self.key,
    {
        &self.key
    }

    /// The slot that the key selects at its level.
    pub fn entry_index(&self) -> (i: usize)
        ensures
            i == slot_of(self.hash),
            i < NUM_ENTRIES,
    {
        proof {
            lemma_slot_in_range(self.hash);
        }
        (self.hash & 0b11111) as usize
    }

    pub fn level(&self) -> (l: u8)
        ensures
            l == self.level,
    {
        self.level
    }

    /// Hashes another key for the level of this one.
    pub fn swap_key(&self, k: K) -> (r: Self)
        requires
            self.level <= MAX_LEVEL,
        ensures
            r.key == k,
            r.level == self.level,
            r.wf(),
    {
        let shift: u64 = 5 * (self.level as u64);
        Self { hash: Self::hash(&k) >> shift, key: k, level: self.level }
    }

    /// Moves on to the next level: drops the chunk of the hash that selected a slot at
    /// this one.
    pub fn increment_level(self) -> (r: Self)
        requires
            self.level < MAX_LEVEL,
        ensures
            r.key == self.key,
            r.hash == self.hash >> 5,
            r.level == self.level + 1,
            self.wf() ==> r.wf(),
    {
        proof {
            lemma_hash_at_next(self.key.hash_spec(), self.level as nat);
        }
        Self { key: self.key, hash: self.hash >> 5, level: self.level + 1 }
    }

    pub fn to_key(self) -> (k: K)
        ensures
            k == self.key,
    {
        self.key
    }

    fn hash(k: &K) -> (h: u64)
        ensures
            h == k.hash_spec(),
    {
        k.hash()
    }
}

} // verus!
