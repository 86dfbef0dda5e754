use super::bucket::Bucket;
use super::hamt::HAMT;
use super::key::duplicate;
use super::key::Key;
use super::key::Value;
use super::node::Node;
use crate::share::share;
use std::sync::Arc;
use vstd::prelude::*;
use vstd::std_specs::cmp::PartialEqSpecImpl;

verus! {

/// What a slot of a trie node holds.
#[derive(Clone, Debug)]
pub enum Entry<K, V> {
    /// Nothing.
    Empty,
    /// The one pair whose key selects the slot.
    KeyValue(K, V),
    /// The node of the next level, with the pairs whose keys select the slot.
    HAMT(Arc<HAMT<K, V>>),
    /// The pairs whose keys select the slot, where the hash has no chunk left to tell
    /// them apart.
    Bucket(Arc<Bucket<K, V>>),
}

impl<K, V> Entry<K, V> {
    /// The entry that stands for a node in the slot above it: its one pair if it is a
    /// singleton, else the node itself.
    pub open spec fn of_hamt(h: HAMT<K, V>) -> Self {
        if h.singleton() {
            Entry::KeyValue(h.pairs()[0].0, h.pairs()[0].1)
        } else {
            Entry::HAMT(Arc::new(h))
        }
    }

    /// The entry that stands for a bucket in the slot above it: its one pair if it holds
    /// one, else the bucket itself.
    pub open spec fn of_bucket(b: Bucket<K, V>) -> Self {
        if b.pairs().len() == 1 {
            Entry::KeyValue(b.pairs()[0].0, b.pairs()[0].1)
        } else {
            Entry::Bucket(Arc::new(b))
        }
    }
}

impl<K: Key, V: Value> Entry<K, V> {
    /// An entry with the same content: pairs are copied, nodes and buckets are shared.
    pub fn duplicate(&self) -> (r: Self)
        ensures
            r == *self,
    {
        match self {
            Entry::Empty => Entry::Empty,
            Entry::KeyValue(k, v) => Entry::KeyValue(duplicate(k), duplicate(v)),
            Entry::HAMT(h) => Entry::HAMT(share(h)),
            Entry::Bucket(b) => Entry::Bucket(share(b)),
        }
    }
}

/// The one pair of a singleton as an entry of its own, and nothing for any other node.
pub(crate) fn convert_node_to_key_value<K: Key, V: Value, N: Node<K, V>>(n: &N) -> (r: Option<
    Entry<K, V>,
>)
    ensures
        r == if n.singleton() {
            Some(Entry::KeyValue(n.contents()[0].0, n.contents()[0].1))
        } else {
            None::<Entry<K, V>>
        },
{
    if n.is_singleton() {
        proof {
            n.lemma_singleton();
        }
        match n.first() {
            Some((k, v)) => Some(Entry::KeyValue(duplicate(k), duplicate(v))),
            None => None,
        }
    } else {
        None
    }
}

impl<K: Key, V: Value> From<HAMT<K, V>> for Entry<K, V> {
    /// The entry that stands for the node in the slot above it: its one pair if it is a
    /// singleton, else the node itself.
    fn from(h: HAMT<K, V>) -> (r: Self) {
        match convert_node_to_key_value(&h) {
            Some(e) => e,
            None => Entry::HAMT(Arc::new(h)),
        }
    }
}

impl<K: Key, V: Value> vstd::std_specs::convert::FromSpecImpl<HAMT<K, V>> for Entry<K, V> {
    open spec fn obeys_from_spec() -> bool {
        true
    }

    open spec fn from_spec(h: HAMT<K, V>) -> Self {
        Entry::of_hamt(h)
    }
}

impl<K: Key, V: Value> From<Bucket<K, V>> for Entry<K, V> {
    /// The entry that stands for the bucket in the slot above it: its one pair if it is a
    /// singleton, else the bucket itself.
    fn from(b: Bucket<K, V>) -> (r: Self) {
        match convert_node_to_key_value(&b) {
            Some(e) => e,
            None => Entry::Bucket(Arc::new(b)),
        }
    }
}

impl<K: Key, V: Value> vstd::std_specs::convert::FromSpecImpl<Bucket<K, V>> for Entry<K, V> {
    open spec fn obeys_from_spec() -> bool {
        true
    }

    open spec fn from_spec(b: Bucket<K, V>) -> Self {
        Entry::of_bucket(b)
    }
}

impl<K: Key, V: Value> PartialEq for Entry<K, V> {
    fn eq(&self, other: &Self) -> (r: bool) {
        self.same_as(other)
    }
}

impl<K: Key, V: Value> PartialEqSpecImpl for Entry<K, V> {
    open spec fn obeys_eq_spec() -> bool {
        true
    }

    open spec fn eq_spec(&self, other: &Self) -> bool {
        self.same(*other)
    }
}

impl<K, V> Default for Entry<K, V> {
    fn default() -> (r: Self)
        ensures
            r == Entry::<K, V>::Empty,
    {
        Entry::Empty
    }
}

} // verus!
