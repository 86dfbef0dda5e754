//! A persistent map on a hash array mapped trie.
//!
//! A node of the trie has 32 slots, and a key goes by the five-bit chunks of its hash: the
//! lowest chunk selects the slot of the root, the next one the slot of the node below, and
//! so on, until the 64 bits of the hash are used up and keys that still collide share a
//! bucket. A slot with a single pair holds the pair itself, so that two maps with the same
//! entries have the same structure.

pub mod bucket;
pub mod entry;
pub mod hamt;
pub mod hashed_key;
pub mod key;
pub mod node;
pub mod pairs;

use hamt::HAMTIterator;
use hamt::HAMT;
use hashed_key::HashedKey;
use key::Key;
use key::Value;
use std::sync::Arc;
use vstd::prelude::*;
use vstd::std_specs::cmp::PartialEqSpecImpl;

verus! {

/// A persistent map: each change gives a new map and leaves the old one as it was. The
/// two share what the change did not touch.
#[derive(Clone, Debug)]
pub struct HashMap<K, V> {
    len: usize,
    hamt: Arc<HAMT<K, V>>,
}

impl<K, V> View for HashMap<K, V> {
    type V = Map<K, V>;

    closed spec fn view(&self) -> Map<K, V> {
        self.hamt@
    }
}

impl<K, V> HashMap<K, V> {
    /// The pairs in the order in which a walk of the trie meets them.
    pub closed spec fn pairs(&self) -> Seq<(K, V)> {
        self.hamt.pairs()
    }

    /// The root of the trie.
    pub closed spec fn root(&self) -> HAMT<K, V> {
        *self.hamt
    }

    /// The two maps have the same count and roots that are the same slot by slot.
    pub closed spec fn same(&self, other: &Self) -> bool {
        &&& self.len == other.len
        &&& self.hamt.same(&*other.hamt)
    }
}

impl<K: Key, V> HashMap<K, V> {
    /// The root is a well-formed node of level 0, and the count is the number of its
    /// pairs.
    pub closed spec fn wf(&self) -> bool {
        &&& self.hamt.wf(0)
        &&& self.len == self.hamt.pairs().len()
    }
}

impl<K: Key, V: Value> HashMap<K, V> {
    /// The map without entries.
    pub fn new() -> (r: Self)
        ensures
            r.wf(),
            r@ == Map::<K, V>::empty(),
    {
        Self { len: 0, hamt: Arc::new(HAMT::new()) }
    }

    /// The map with `v` at `k`, beside what this map holds at other keys.
    pub fn insert(&self, k: K, v: V) -> (r: Self)
        requires
            self.wf(),
            self@.len() < usize::MAX,
        ensures
            r.wf(),
            r@ == self@.insert(k, v),
            r@.len() == self@.len() + if self@.contains_key(k) {
                0nat
            } else {
                1nat
            },
    {
        proof {
            self.hamt.lemma_len(0);
        }
        let (h, b): (HAMT<K, V>, bool) = self.hamt.insert(HashedKey::new(k), v);
        proof {
            h.lemma_len(0);
        }
        Self { len: if b {
            self.len + 1
        } else {
            self.len
        }, hamt: Arc::new(h) }
    }

    /// The map without `k`, if this map holds `k`.
    pub fn remove(&self, k: &K) -> (r: Option<Self>)
        requires
            self.wf(),
        ensures
            match r {
                Some(m) => self@.contains_key(*k) && m.wf() && m@ == self@.remove(*k) && m@.len()
                    + 1 == self@.len(),
                None => !self@.contains_key(*k),
            },
    {
        proof {
            self.hamt.lemma_len(0);
        }
        match self.hamt.remove(HashedKey::new(k)) {
            Some(h) => {
                proof {
                    h.lemma_len(0);
                }
                Some(Self { len: self.len - 1, hamt: Arc::new(h) })
            },
            None => None,
        }
    }

    /// The value at `k`, if this map holds `k`.
    pub fn get(&self, k: &K) -> (r: Option<&V>)
        requires
            self.wf(),
        ensures
            match r {
                Some(v) => self@.contains_key(*k) && self@[*k] == *v,
                None => !self@.contains_key(*k),
            },
    {
        self.hamt.get(HashedKey::new(k))
    }

    /// The first pair that a walk of the trie meets, and the map without it; nothing for
    /// the map without entries.
    pub fn first_rest(&self) -> (r: Option<(&K, &V, Self)>)
        requires
            self.wf(),
        ensures
            match r {
                Some((k, v, rest)) => {
                    &&& self.pairs().len() > 0
                    &&& (*k, *v) == self.pairs()[0]
                    &&& self@.contains_key(*k)
                    &&& self@[*k] == *v
                    &&& rest.wf()
                    &&& rest@ == self@.remove(*k)
                    &&& rest@.len() + 1 == self@.len()
                },
                None => self@ == Map::<K, V>::empty(),
            },
    {
        proof {
            self.hamt.lemma_len(0);
            self.hamt.lemma_distinct(0);
            assert(self.hamt.wf(0));
        }
        match self.hamt.first_rest() {
            Some((k, v, h)) => {
                proof {
                    pairs::lemma_pairs_map_at(self.hamt.pairs(), 0);
                    h.lemma_len(0);
                }
                Some((k, v, Self { len: self.len - 1, hamt: Arc::new(h) }))
            },
            None => {
                assert(self@ =~= Map::<K, V>::empty());
                None
            },
        }
    }

    /// The number of entries.
    pub fn len(&self) -> (n: usize)
        requires
            self.wf(),
        ensures
            n == self@.len(),
    {
        proof {
            self.hamt.lemma_len(0);
        }
        self.len
    }

    /// The number of entries.
    pub fn size(&self) -> (n: usize)
        requires
            self.wf(),
        ensures
            n == self@.len(),
    {
        self.len()
    }

    /// Whether the map is without entries.
    pub fn is_empty(&self) -> (b: bool)
        requires
            self.wf(),
        ensures
            b == (self@.len() == 0),
    {
        self.len() == 0
    }
}

impl<K, V> HashMap<K, V> {
    /// A walk over the pairs of the map, from the first.
    pub fn iter(&self) -> (r: HashMapIterator<'_, K, V>)
        ensures
            r.wf(),
            r.remaining() == self.pairs(),
    {
        HashMapIterator { hamt_iterator: self.hamt.iter() }
    }
}

impl<K: Key, V: Value> Default for HashMap<K, V> {
    fn default() -> (r: Self)
        ensures
            r.wf(),
            r@ == Map::<K, V>::empty(),
    {
        Self::new()
    }
}

impl<K: Key, V: Value> PartialEq for HashMap<K, V> {
    fn eq(&self, other: &Self) -> (r: bool) {
        self.len == other.len && *self.hamt == *other.hamt
    }
}

impl<K: Key, V: Value> PartialEqSpecImpl for HashMap<K, V> {
    open spec fn obeys_eq_spec() -> bool {
        true
    }

    open spec fn eq_spec(&self, other: &Self) -> bool {
        self.same(other)
    }
}

/// A walk over the pairs of a map, in the order of the slots of its trie. It walks the map
/// as it was when the walk began.
#[derive(Clone, Debug)]
pub struct HashMapIterator<'a, K, V> {
    hamt_iterator: HAMTIterator<'a, K, V>,
}

impl<'a, K, V> HashMapIterator<'a, K, V> {
    /// The walk stands at a place of the trie.
    pub closed spec fn wf(&self) -> bool {
        self.hamt_iterator.wf()
    }

    /// The pairs that the walk has yet to give, in order.
    pub closed spec fn remaining(&self) -> Seq<(K, V)> {
        self.hamt_iterator.remaining()
    }

    /// Gives the next pair, if one is left, and moves past it.
    pub fn next(&mut self) -> (r: Option<(&'a K, &'a V)>)
        requires
            old(self).wf(),
        ensures
            final(self).wf(),
            match r {
                Some(p) => {
                    &&& old(self).remaining().len() > 0
                    &&& (*p.0, *p.1) == old(self).remaining()[0]
                    &&& final(self).remaining() == old(self).remaining().skip(1)
                },
                None => {
                    &&& old(self).remaining().len() == 0
                    &&& final(self).remaining() == old(self).remaining()
                },
            },
    {
        self.hamt_iterator.next()
    }
}

impl<K: Key, V> HashMap<K, V> {
    /// A well-formed map is finite, and its pairs are its entries, each once.
    pub proof fn lemma_pairs(&self)
        requires
            self.wf(),
        ensures
            self@.dom().finite(),
            self@.len() == self.pairs().len(),
            pairs::distinct_keys(self.pairs()),
            self@ == pairs::pairs_map(self.pairs()),
            self.root().wf(0),
            self.root()@ == self@,
    {
        self.hamt.lemma_len(0);
        self.hamt.lemma_distinct(0);
    }

    /// A lookup after an insertion of the same key finds the inserted value: if `after`
    /// is what `insert` gives for `k` and `v`, then `get` on it gives `v` for `k`.
    pub proof fn law_get_after_insert(&self, k: K, v: V, after: &Self)
        requires
            self.wf(),
            after.wf(),
            after@ == self@.insert(k, v),
        ensures
            after@.contains_key(k),
            after@[k] == v,
    {
    }

    /// An insertion of a key leaves the other keys as they were.
    pub proof fn law_get_other_after_insert(&self, k: K, v: V, after: &Self, other: K)
        requires
            self.wf(),
            after.wf(),
            after@ == self@.insert(k, v),
            other != k,
        ensures
            after@.contains_key(other) == self@.contains_key(other),
            after@.contains_key(other) ==> after@[other] == self@[other],
    {
    }

    /// An insertion adds one to the size if the key is new, and nothing if it is not.
    pub proof fn law_size_after_insert(&self, k: K, v: V, after: &Self)
        requires
            self.wf(),
            after.wf(),
            after@ == self@.insert(k, v),
        ensures
            after@.len() == self@.len() + if self@.contains_key(k) {
                0nat
            } else {
                1nat
            },
    {
        self.lemma_pairs();
    }

    /// Removing a key that was new when it was inserted gives a map equal in structure to
    /// the one before the insertion: if `inserted` is what `insert` gives for `k` and
    /// `v`, and `removed` what `remove` gives on it for `k`, then `removed` equals this
    /// map.
    pub proof fn law_remove_after_insert(&self, k: K, v: V, inserted: &Self, removed: &Self)
        requires
            self.wf(),
            !self@.contains_key(k),
            inserted.wf(),
            inserted@ == self@.insert(k, v),
            removed.wf(),
            removed@ == inserted@.remove(k),
        ensures
            removed.same(self),
    {
        assert(removed@ =~= self@);
        removed.law_canonical(self);
    }

    /// Canonical form: two well-formed maps with the same entries are equal in
    /// structure, whatever insertions and removals each was built by.
    pub proof fn law_canonical(&self, other: &Self)
        requires
            self.wf(),
            other.wf(),
            self@ == other@,
        ensures
            self.same(other),
    {
        self.lemma_pairs();
        other.lemma_pairs();
        self.hamt.lemma_canonical(&*other.hamt, 0);
    }

    /// Two well-formed maps that are equal in structure hold the same entries.
    pub proof fn law_equal_maps_hold_the_same(&self, other: &Self)
        requires
            self.wf(),
            other.wf(),
            self.same(other),
        ensures
            self@ == other@,
    {
        self.hamt.lemma_same_view(&*other.hamt, 0);
    }

    /// A walk of a well-formed map goes by the slots of the trie: of two pairs, it meets
    /// first the one whose key selects the lower slot at the first level at which the two
    /// keys differ.
    pub proof fn law_walk_order(&self)
        requires
            self.wf(),
        ensures
            forall|a: int, b: int|
                0 <= a <= b < self.pairs().len() ==> hashed_key::walk_order(
                    #[trigger] self.pairs()[a].0,
                    #[trigger] self.pairs()[b].0,
                    0,
                ),
    {
        self.hamt.law_walk_order(0);
    }

    /// A walk of a well-formed map meets as many pairs as the map has entries, no key
    /// twice, and each pair as `get` gives it.
    pub proof fn law_pairs(&self)
        requires
            self.wf(),
        ensures
            self.pairs().len() == self@.len(),
            pairs::distinct_keys(self.pairs()),
            forall|i: int|
                0 <= i < self.pairs().len() ==> self@.contains_key(#[trigger] self.pairs()[i].0)
                    && self@[self.pairs()[i].0] == self.pairs()[i].1,
    {
        self.lemma_pairs();
        assert forall|i: int| 0 <= i < self.pairs().len() implies self@.contains_key(
            #[trigger] self.pairs()[i].0,
        ) && self@[self.pairs()[i].0] == self.pairs()[i].1 by {
            pairs::lemma_pairs_map_at(self.pairs(), i);
        }
    }
}

} // verus!
