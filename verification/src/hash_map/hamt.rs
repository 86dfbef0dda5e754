use super::bucket::Bucket;
use super::bucket::BucketIterator;
use super::entry::Entry;
use super::hashed_key::key_slot;
use super::hashed_key::lemma_slot_in_range;
use super::hashed_key::lemma_walk_order_self;
use super::hashed_key::slot_of;
use super::hashed_key::walk_order;
use super::hashed_key::hash_at;
use super::hashed_key::HashedKey;
use super::hashed_key::MAX_LEVEL;
use super::hashed_key::NUM_ENTRIES;
use super::key::duplicate;
use super::key::same;
use super::key::Key;
use super::key::Value;
use super::node::Node;
use super::pairs::distinct_keys;
use super::pairs::has_key;
use super::pairs::index_of_key;
use super::pairs::lemma_distinct_concat;
use super::pairs::lemma_pairs_concat;
use super::pairs::lemma_pairs_map_empty;
use super::pairs::lemma_pairs_map_len;
use super::pairs::lemma_pairs_map_one;
use super::pairs::pairs_map;
use std::sync::Arc;
use vstd::prelude::*;
use vstd::std_specs::cmp::PartialEqSpecImpl;

verus! {

/// A node of the trie: one entry for each value of a five-bit chunk of a hash.
#[derive(Clone, Debug)]
pub struct HAMT<K, V> {
    entries: Vec<Entry<K, V>>,
}

impl<K, V> View for HAMT<K, V> {
    type V = Map<K, V>;

    open spec fn view(&self) -> Map<K, V> {
        pairs_map(self.pairs())
    }
}

impl<K, V> Entry<K, V> {
    /// The pairs that the entry holds, in the order in which a walk meets them.
    pub open spec fn pairs(self) -> Seq<(K, V)>
        decreases self,
    {
        match self {
            Entry::Empty => Seq::empty(),
            Entry::KeyValue(k, v) => seq![(k, v)],
            Entry::HAMT(h) => h.pairs(),
            Entry::Bucket(b) => b.pairs(),
        }
    }

    /// The two entries are of one kind and hold the same: the same pair, nodes that are
    /// the same slot by slot, or buckets with the same pairs in whatever order.
    pub open spec fn same(self, other: Self) -> bool
        decreases self,
    {
        match self {
            Entry::Empty => other is Empty,
            Entry::KeyValue(k, v) => other == Entry::KeyValue(k, v),
            Entry::HAMT(a) => other matches Entry::HAMT(b) && a.same(&*b),
            Entry::Bucket(a) => other matches Entry::Bucket(b) && a@ == b@,
        }
    }

    /// No node or bucket at or below the entry holds exactly one pair.
    pub open spec fn normal(self) -> bool
        decreases self,
    {
        match self {
            Entry::HAMT(h) => h.normal() && h.pairs().len() != 1,
            Entry::Bucket(b) => b.pairs().len() != 1,
            _ => true,
        }
    }

    /// The steps that a walk spends below the entry without giving a pair.
    spec fn work(self) -> nat
        decreases self,
    {
        match self {
            Entry::HAMT(h) => h.work_from(0),
            _ => 0,
        }
    }
}

impl<K, V> HAMT<K, V> {
    /// The entries, by slot.
    pub closed spec fn entries(&self) -> Seq<Entry<K, V>> {
        self.entries@
    }

    /// The pairs that the node holds, in the order in which a walk meets them: slot by
    /// slot, and below a slot first.
    pub closed spec fn pairs(&self) -> Seq<(K, V)>
        decreases self, self.entries().len() + 1,
    {
        self.pairs_upto(self.entries@.len())
    }

    /// The pairs that the first `n` slots hold.
    spec fn pairs_upto(&self, n: nat) -> Seq<(K, V)>
        decreases self, n,
    {
        if n == 0 || n > self.entries@.len() {
            Seq::empty()
        } else {
            self.pairs_upto((n - 1) as nat) + self.entries@[n - 1].pairs()
        }
    }

    /// The pairs that the slots from `i` on hold.
    spec fn pairs_from(&self, i: nat) -> Seq<(K, V)>
        decreases self, self.entries().len() - i,
    {
        if i >= self.entries@.len() {
            Seq::empty()
        } else {
            self.entries@[i as int].pairs() + self.pairs_from(i + 1)
        }
    }

    /// One slot holds a pair and the others are empty.
    pub closed spec fn singleton(&self) -> bool {
        exists|i: int|
            0 <= i < self.entries@.len() && (#[trigger] self.entries@[i]) is KeyValue && forall|
                j: int,
            |
                0 <= j < self.entries@.len() && j != i ==> (#[trigger] self.entries@[j]) is Empty
    }

    /// The two nodes are the same slot by slot.
    pub closed spec fn same(&self, other: &Self) -> bool
        decreases self, self.entries().len() + 1,
    {
        &&& self.entries@.len() == other.entries@.len()
        &&& forall|i: int|
            0 <= i < self.entries@.len() ==> (#[trigger] self.entries@[i]).same(other.entries@[i])
    }

    /// No node or bucket below this node holds exactly one pair: each single pair stands
    /// in a slot of its own.
    pub closed spec fn normal(&self) -> bool
        decreases self, self.entries().len() + 1,
    {
        forall|i: int| 0 <= i < self.entries@.len() ==> (#[trigger] self.entries@[i]).normal()
    }

    /// A bound on the steps that a walk spends at and below the slots from `i` on.
    spec fn work_from(&self, i: nat) -> nat
        decreases self, self.entries().len() - i,
    {
        if i >= self.entries@.len() {
            1
        } else {
            1 + self.entries@[i as int].work() + self.work_from(i + 1)
        }
    }
}

impl<K: Key, V> Entry<K, V> {
    /// The entry may stand in slot `slot` of a node at `level`: the keys it holds select
    /// that slot, and a node or a bucket stands only where a single pair could not: with
    /// two pairs or more, a node above the deepest level and a bucket at it.
    pub open spec fn wf_at(self, level: nat, slot: int) -> bool
        decreases self,
    {
        match self {
            Entry::Empty => true,
            Entry::KeyValue(k, _) => key_slot(k, level) == slot,
            Entry::HAMT(h) => {
                &&& level < MAX_LEVEL
                &&& h.wf(level + 1)
                &&& h.pairs().len() >= 2
                &&& forall|j: int|
                    0 <= j < h.pairs().len() ==> key_slot(#[trigger] h.pairs()[j].0, level) == slot
            },
            Entry::Bucket(b) => {
                &&& level == MAX_LEVEL
                &&& b.wf()
                &&& b.pairs().len() >= 2
                &&& forall|j: int|
                    0 <= j < b.pairs().len() ==> key_slot(#[trigger] b.pairs()[j].0, level) == slot
            },
        }
    }
}

impl<K: Key, V> HAMT<K, V> {
    /// The node is a well-formed node of `level`: it has its 32 entries, and each may
    /// stand in its slot.
    pub closed spec fn wf(&self, level: nat) -> bool
        decreases self, NUM_ENTRIES + 1,
    {
        &&& level <= MAX_LEVEL
        &&& self.entries@.len() == NUM_ENTRIES
        &&& forall|i: int|
            0 <= i < NUM_ENTRIES ==> (#[trigger] self.entries@[i]).wf_at(level, i)
    }
}

impl<K: Key, V: Value> HAMT<K, V> {
    /// The node without pairs, which is well-formed at every level.
    pub fn new() -> (r: Self)
        ensures
            forall|level: nat| level <= MAX_LEVEL ==> r.wf(level),
            r.pairs() == Seq::<(K, V)>::empty(),
            r@ == Map::<K, V>::empty(),
    {
        let mut entries: Vec<Entry<K, V>> = Vec::new();
        let mut i: usize = 0;
        while i < NUM_ENTRIES
            invariant
                i <= NUM_ENTRIES,
                entries@.len() == i,
                forall|j: int| 0 <= j < i ==> entries@[j] == Entry::<K, V>::Empty,
            decreases NUM_ENTRIES - i,
        {
            entries.push(Entry::Empty);
            i += 1;
        }
        let r = Self { entries };
        proof {
            r.lemma_empty(NUM_ENTRIES as nat);
            lemma_pairs_map_empty::<K, V>();
            assert forall|level: nat| level <= MAX_LEVEL implies r.wf(level) by {
                assert forall|j: int| 0 <= j < NUM_ENTRIES implies (#[trigger] r.entries@[j]).wf_at(
                    level,
                    j,
                ) by {}
            }
        }
        r
    }

    /// The node with `v` beside the key of `k`, and whether the key is new to it.
    pub fn insert(&self, k: HashedKey<K>, v: V) -> (r: (Self, bool))
        requires
            self.wf(k.level as nat),
            k.wf(),
        ensures
            r.0.wf(k.level as nat),
            r.0@ == self@.insert(k.key, v),
            r.1 == !self@.contains_key(k.key),
            r.0.pairs().len() == self.pairs().len() + if r.1 {
                1nat
            } else {
                0nat
            },
            forall|j: int|
                0 <= j < NUM_ENTRIES && j != slot_of(k.hash) ==> r.0.entries()[j]
                    == self.entries()[j],
        decreases MAX_LEVEL - k.level,
    {
        let i: usize = k.entry_index();
        let ghost level = k.level as nat;
        let ghost key = k.key;
        let ghost pairs = self.entries@[i as int].pairs();
        proof {
            self.lemma_by_slot(level, key);
            assert(self.entries@[i as int].wf_at(level, i as int));
            assert(self@.contains_key(key) <==> pairs_map(pairs).contains_key(key));
        }
        let (e, is_new): (Entry<K, V>, bool) = match &self.entries[i] {
            Entry::Empty => {
                proof {
                    lemma_pairs_map_empty::<K, V>();
                    lemma_pairs_map_one(key, v);
                    assert(map![key => v] =~= Map::<K, V>::empty().insert(key, v));
                }
                (Entry::KeyValue(k.to_key(), v), true)
            },
            Entry::KeyValue(kk, vv) => {
                proof {
                    lemma_pairs_map_one(*kk, *vv);
                    lemma_pairs_map_one(key, v);
                }
                if same(kk, k.key()) {
                    assert(map![key => v] =~= map![*kk => *vv].insert(key, v));
                    (Entry::KeyValue(k.to_key(), v), false)
                } else if k.level() < MAX_LEVEL {
                    let other: HashedKey<K> = k.swap_key(duplicate(kk)).increment_level();
                    let first: (Self, bool) = Self::new().insert(other, duplicate(vv));
                    let second: (Self, bool) = first.0.insert(k.increment_level(), v);
                    let child: Self = second.0;
                    proof {
                        assert(child@ =~= map![*kk => *vv].insert(key, v));
                        assert forall|j: int| 0 <= j < child.pairs().len() implies key_slot(
                            #[trigger] child.pairs()[j].0,
                            level,
                        ) == i by {
                            assert(has_key(child.pairs(), child.pairs()[j].0));
                            assert(child@.contains_key(child.pairs()[j].0));
                        }
                    }
                    (Entry::HAMT(Arc::new(child)), true)
                } else {
                    let b: (Bucket<K, V>, bool) = Bucket::new(duplicate(kk), duplicate(vv)).insert(
                        k.to_key(),
                        v,
                    );
                    proof {
                        assert(b.0@ =~= map![*kk => *vv].insert(key, v));
                        assert forall|j: int| 0 <= j < b.0.pairs().len() implies key_slot(
                            #[trigger] b.0.pairs()[j].0,
                            level,
                        ) == i by {
                            assert(has_key(b.0.pairs(), b.0.pairs()[j].0));
                            assert(b.0@.contains_key(b.0.pairs()[j].0));
                        }
                    }
                    (Entry::Bucket(Arc::new(b.0)), true)
                }
            },
            Entry::HAMT(h) => {
                let next: (Self, bool) = h.insert(k.increment_level(), v);
                proof {
                    assert forall|j: int| 0 <= j < next.0.pairs().len() implies key_slot(
                        #[trigger] next.0.pairs()[j].0,
                        level,
                    ) == i by {
                        let q = next.0.pairs()[j].0;
                        assert(has_key(next.0.pairs(), q));
                        assert(next.0@.contains_key(q));
                        if q != key {
                            assert(h@.contains_key(q));
                            let a = index_of_key(h.pairs(), q);
                            assert(key_slot(h.pairs()[a].0, level) == i);
                        }
                    }
                }
                (Entry::HAMT(Arc::new(next.0)), next.1)
            },
            Entry::Bucket(b) => {
                let next: (Bucket<K, V>, bool) = b.insert(k.to_key(), v);
                proof {
                    assert forall|j: int| 0 <= j < next.0.pairs().len() implies key_slot(
                        #[trigger] next.0.pairs()[j].0,
                        level,
                    ) == i by {
                        let q = next.0.pairs()[j].0;
                        assert(has_key(next.0.pairs(), q));
                        assert(next.0@.contains_key(q));
                        if q != key {
                            assert(b@.contains_key(q));
                            let a = index_of_key(b.pairs(), q);
                            assert(key_slot(b.pairs()[a].0, level) == i);
                        }
                    }
                }
                (Entry::Bucket(Arc::new(next.0)), next.1)
            },
        };
        let r: Self = self.set_entry(i, e);
        proof {
            self.lemma_insert_update(&r, level, e, key, v);
        }
        (r, is_new)
    }

    /// The node without the key of `k`, if it holds that key.
    pub fn remove(&self, k: HashedKey<&K>) -> (r: Option<Self>)
        requires
            self.wf(k.level as nat),
            k.wf(),
        ensures
            match r {
                Some(h) => {
                    &&& self@.contains_key(*k.key)
                    &&& h.wf(k.level as nat)
                    &&& h@ == self@.remove(*k.key)
                    &&& h.pairs().len() + 1 == self.pairs().len()
                    &&& forall|j: int|
                        0 <= j < NUM_ENTRIES && j != slot_of(k.hash) ==> h.entries()[j]
                            == self.entries()[j]
                },
                None => !self@.contains_key(*k.key),
            },
        decreases MAX_LEVEL - k.level,
    {
        let i: usize = k.entry_index();
        let ghost level = k.level as nat;
        let ghost key = *k.key;
        let ghost pairs = self.entries@[i as int].pairs();
        proof {
            self.lemma_by_slot(level, key);
            assert(self.entries@[i as int].wf_at(level, i as int));
            assert(self@.contains_key(key) <==> pairs_map(pairs).contains_key(key));
            lemma_pairs_map_empty::<K, V>();
        }
        let e: Entry<K, V> = match &self.entries[i] {
            Entry::Empty => {
                return None;
            },
            Entry::KeyValue(kk, vv) => {
                proof {
                    lemma_pairs_map_one(*kk, *vv);
                }
                if same(kk, *k.key()) {
                    assert(Map::<K, V>::empty() =~= map![*kk => *vv].remove(key));
                    Entry::Empty
                } else {
                    return None;
                }
            },
            Entry::HAMT(h) => {
                match h.remove(k.increment_level()) {
                    None => {
                        return None;
                    },
                    Some(rest) => {
                        proof {
                            h.lemma_rest_of_node(&rest, level, i as int, key);
                        }
                        Entry::from(rest)
                    },
                }
            },
            Entry::Bucket(b) => {
                match b.remove(*k.key()) {
                    None => {
                        return None;
                    },
                    Some(rest) => {
                        proof {
                            Self::lemma_rest_of_bucket(&**b, &rest, level, i as int, key);
                        }
                        Entry::from(rest)
                    },
                }
            },
        };
        let r: Self = self.set_entry(i, e);
        proof {
            self.lemma_remove_update(&r, level, e, key);
        }
        Some(r)
    }

    /// The value beside the key of `k`, if the node holds that key.
    pub fn get(&self, k: HashedKey<&K>) -> (r: Option<&V>)
        requires
            self.wf(k.level as nat),
            k.wf(),
        ensures
            match r {
                Some(v) => self@.contains_key(*k.key) && self@[*k.key] == *v,
                None => !self@.contains_key(*k.key),
            },
        decreases MAX_LEVEL - k.level,
    {
        let i: usize = k.entry_index();
        proof {
            self.lemma_by_slot(k.level as nat, *k.key);
            assert(self.entries@[i as int].wf_at(k.level as nat, i as int));
        }
        let ghost pairs = self.entries@[i as int].pairs();
        assert(self@.contains_key(*k.key) <==> pairs_map(pairs).contains_key(*k.key));
        match &self.entries[i] {
            Entry::Empty => {
                proof {
                    lemma_pairs_map_empty::<K, V>();
                }
                None
            },
            Entry::KeyValue(kk, vv) => {
                proof {
                    lemma_pairs_map_one(*kk, *vv);
                }
                if same(kk, *k.key()) {
                    Some(vv)
                } else {
                    None
                }
            },
            Entry::HAMT(h) => h.get(k.increment_level()),
            Entry::Bucket(b) => b.get(*k.key()),
        }
    }

    /// The first pair that a walk meets, and the node without it; nothing for a node
    /// without pairs.
    pub fn first_rest(&self) -> (r: Option<(&K, &V, Self)>)
        requires
            exists|level: nat| self.wf(level),
        ensures
            match r {
                Some((k, v, rest)) => {
                    &&& self.pairs().len() > 0
                    &&& (*k, *v) == self.pairs()[0]
                    &&& rest@ == self@.remove(*k)
                    &&& rest.pairs().len() + 1 == self.pairs().len()
                    &&& forall|level: nat| self.wf(level) ==> rest.wf(level)
                },
                None => self.pairs().len() == 0,
            },
        decreases self,
    {
        let n: usize = self.entries.len();
        let mut i: usize = 0;
        while i < n
            invariant
                n == self.entries@.len(),
                i <= n,
                self.pairs_upto(i as nat).len() == 0,
                exists|level: nat| self.wf(level),
            decreases n - i,
        {
            let ghost below = self.entries@[i as int].pairs();
            proof {
                self.lemma_pairs_upto_prefix((i + 1) as nat, n as nat);
                assert(self.pairs_upto((i + 1) as nat) =~= below);
                if below.len() > 0 {
                    assert(self.pairs()[0] == self.pairs_upto((i + 1) as nat)[0]);
                }
                let level = choose|level: nat| self.wf(level);
                assert(self.entries@[i as int].wf_at(level, i as int));
            }
            let found: Option<(&K, &V, Entry<K, V>)> = match &self.entries[i] {
                Entry::Empty => {
                    assert(below =~= Seq::<(K, V)>::empty());
                    None
                },
                Entry::KeyValue(k, v) => {
                    proof {
                        assert(below =~= seq![(*k, *v)]);
                        lemma_pairs_map_one(*k, *v);
                        assert(Map::<K, V>::empty() =~= map![*k => *v].remove(*k));
                    }
                    Some((k, v, Entry::Empty))
                },
                Entry::HAMT(h) => {
                    assert(below == h.pairs());
                    proof {
                        let level = choose|level: nat| self.wf(level);
                        assert(self.entries@[i as int].wf_at(level, i as int));
                        assert(h.wf(level + 1));
                    }
                    match h.first_rest() {
                        Some((k, v, rest)) => {
                            proof {
                                assert forall|level: nat| self.wf(level) implies Entry::of_hamt(
                                    rest,
                                ).wf_at(level, i as int) by {
                                    assert(self.entries@[i as int].wf_at(level, i as int));
                                    h.lemma_rest_of_node(&rest, level, i as int, *k);
                                }
                                let level = choose|level: nat| self.wf(level);
                                h.lemma_rest_of_node(&rest, level, i as int, *k);
                            }
                            Some((k, v, Entry::from(rest)))
                        },
                        None => None,
                    }
                },
                Entry::Bucket(b) => {
                    assert(below == b.pairs());
                    match b.first_rest() {
                        Some((k, v, rest)) => {
                            proof {
                                assert forall|level: nat| self.wf(level) implies Entry::of_bucket(
                                    rest,
                                ).wf_at(level, i as int) by {
                                    assert(self.entries@[i as int].wf_at(level, i as int));
                                    Self::lemma_rest_of_bucket(&**b, &rest, level, i as int, *k);
                                }
                                let level = choose|level: nat| self.wf(level);
                                Self::lemma_rest_of_bucket(&**b, &rest, level, i as int, *k);
                            }
                            Some((k, v, Entry::from(rest)))
                        },
                        None => None,
                    }
                },
            };
            match found {
                Some((k, v, e)) => {
                    let r: Self = self.set_entry(i, e);
                    proof {
                        assert(below.len() > 0 && below[0] == (*k, *v));
                        assert(pairs_map(e.pairs()) == pairs_map(below).remove(*k));
                        assert forall|level: nat| self.wf(level) implies r.wf(level) by {
                            self.lemma_wf_update(&r, level, i as int, e);
                        }
                        let level = choose|level: nat| self.wf(level);
                        self.entries@[i as int].lemma_pairs(level, i as int);
                        assert(key_slot(below[0].0, level) == i);
                        self.lemma_remove_update(&r, level, e, *k);
                    }
                    return Some((k, v, r));
                },
                None => {},
            }
            i += 1;
        }
        None
    }

    /// The number of pairs.
    pub fn len(&self) -> (n: usize)
        requires
            self.pairs().len() <= usize::MAX,
        ensures
            n == self.pairs().len(),
        decreases self,
    {
        let size: usize = self.entries.len();
        let mut sum: usize = 0;
        let mut i: usize = 0;
        while i < size
            invariant
                size == self.entries@.len(),
                i <= size,
                sum == self.pairs_upto(i as nat).len(),
                self.pairs().len() <= usize::MAX,
            decreases size - i,
        {
            let ghost below = self.entries@[i as int].pairs();
            proof {
                self.lemma_pairs_upto_prefix((i + 1) as nat, size as nat);
                assert(self.pairs_upto((i + 1) as nat).len() == sum + below.len());
            }
            let m: usize = match &self.entries[i] {
                Entry::Empty => 0,
                Entry::KeyValue(_, _) => 1,
                Entry::HAMT(h) => h.len(),
                Entry::Bucket(b) => b.len(),
            };
            assert(m == below.len());
            sum += m;
            i += 1;
        }
        sum
    }

    /// Whether some slot of this node holds a bucket.
    pub fn contain_bucket(&self) -> (r: bool)
        ensures
            r == exists|i: int|
                0 <= i < self.entries().len() && (#[trigger] self.entries()[i]) is Bucket,
    {
        let n: usize = self.entries.len();
        let mut i: usize = 0;
        while i < n
            invariant
                n == self.entries@.len(),
                i <= n,
                forall|j: int| 0 <= j < i ==> !((#[trigger] self.entries@[j]) is Bucket),
            decreases n - i,
        {
            match &self.entries[i] {
                Entry::Bucket(_) => {
                    return true;
                },
                _ => {},
            }
            i += 1;
        }
        false
    }

    /// Whether no node or bucket below this node holds exactly one pair.
    pub fn is_normal(&self) -> (r: bool)
        requires
            self.pairs().len() <= usize::MAX,
        ensures
            r == self.normal(),
        decreases self,
    {
        let n: usize = self.entries.len();
        let mut i: usize = 0;
        while i < n
            invariant
                n == self.entries@.len(),
                i <= n,
                forall|j: int| 0 <= j < i ==> (#[trigger] self.entries@[j]).normal(),
                self.pairs().len() <= usize::MAX,
            decreases n - i,
        {
            proof {
                self.lemma_len_one(n as nat, i as int);
            }
            let ok: bool = match &self.entries[i] {
                Entry::Bucket(b) => b.len() != 1,
                Entry::HAMT(h) => h.is_normal() && h.len() != 1,
                _ => true,
            };
            assert(ok == self.entries@[i as int].normal());
            if !ok {
                return false;
            }
            i += 1;
        }
        true
    }

    /// The node with `e` in slot `i` and the other entries as they are.
    fn set_entry(&self, i: usize, e: Entry<K, V>) -> (r: Self)
        requires
            self.entries().len() == NUM_ENTRIES,
            i < NUM_ENTRIES,
        ensures
            r.entries() == self.entries().update(i as int, e),
    {
        let mut entries: Vec<Entry<K, V>> = Vec::new();
        let mut j: usize = 0;
        while j < NUM_ENTRIES
            invariant
                j <= NUM_ENTRIES,
                self.entries@.len() == NUM_ENTRIES,
                entries@ == self.entries@.take(j as int),
            decreases NUM_ENTRIES - j,
        {
            entries.push(self.entries[j].duplicate());
            j += 1;
            assert(entries@ =~= self.entries@.take(j as int));
        }
        assert(entries@ =~= self.entries@);
        entries.set(i, e);
        Self { entries }
    }

    /// The first pair that a walk meets, if the node holds any.
    fn first_pair(&self) -> (r: Option<(&K, &V)>)
        ensures
            match r {
                Some(p) => self.pairs().len() > 0 && (*p.0, *p.1) == self.pairs()[0],
                None => self.pairs().len() == 0,
            },
        decreases self,
    {
        let n: usize = self.entries.len();
        let mut i: usize = 0;
        while i < n
            invariant
                n == self.entries@.len(),
                i <= n,
                self.pairs_upto(i as nat).len() == 0,
            decreases n - i,
        {
            let ghost below = self.entries@[i as int].pairs();
            proof {
                self.lemma_pairs_upto_prefix((i + 1) as nat, n as nat);
                assert(self.pairs_upto((i + 1) as nat) =~= below);
                if below.len() > 0 {
                    assert(self.pairs()[0] == self.pairs_upto((i + 1) as nat)[0]);
                }
            }
            match &self.entries[i] {
                Entry::Empty => {
                    assert(below =~= Seq::<(K, V)>::empty());
                },
                Entry::KeyValue(k, v) => {
                    assert(below =~= seq![(*k, *v)]);
                    return Some((k, v));
                },
                Entry::HAMT(h) => {
                    assert(below == h.pairs());
                    match h.first_pair() {
                        Some(p) => {
                            return Some(p);
                        },
                        None => {},
                    }
                },
                Entry::Bucket(b) => {
                    assert(below == b.pairs());
                    match b.first() {
                        Some(p) => {
                            return Some(p);
                        },
                        None => {},
                    }
                },
            }
            i += 1;
        }
        None
    }

    /// Whether the two nodes are the same slot by slot.
    pub(crate) fn same_as(&self, other: &Self) -> (r: bool)
        ensures
            r == self.same(other),
        decreases self,
    {
        let n: usize = self.entries.len();
        if n != other.entries.len() {
            return false;
        }
        let mut i: usize = 0;
        while i < n
            invariant
                n == self.entries@.len(),
                n == other.entries@.len(),
                i <= n,
                forall|j: int|
                    0 <= j < i ==> (#[trigger] self.entries@[j]).same(other.entries@[j]),
            decreases n - i,
        {
            if !self.entries[i].same_as(&other.entries[i]) {
                return false;
            }
            i += 1;
        }
        true
    }
}

impl<K: Key, V: Value> Entry<K, V> {
    /// Whether the two entries are of one kind and hold the same.
    pub(crate) fn same_as(&self, other: &Self) -> (r: bool)
        ensures
            r == self.same(*other),
        decreases self,
    {
        match self {
            Entry::Empty => match other {
                Entry::Empty => true,
                _ => false,
            },
            Entry::KeyValue(k, v) => match other {
                Entry::KeyValue(k2, v2) => same(k, k2) && same(v, v2),
                _ => false,
            },
            Entry::HAMT(a) => match other {
                Entry::HAMT(b) => a.same_as(b),
                _ => false,
            },
            Entry::Bucket(a) => match other {
                Entry::Bucket(b) => **a == **b,
                _ => false,
            },
        }
    }
}

impl<K: Key, V: Value> Node<K, V> for HAMT<K, V> {
    open spec fn contents(&self) -> Seq<(K, V)> {
        self.pairs()
    }

    open spec fn singleton(&self) -> bool {
        HAMT::singleton(self)
    }

    proof fn lemma_singleton(&self) {
        self.lemma_singleton_len();
    }

    fn is_singleton(&self) -> (r: bool) {
        let n: usize = self.entries.len();
        let mut sum: usize = 0;
        let mut i: usize = 0;
        let ghost mut a: int = 0;
        let ghost mut b: int = 0;
        while i < n
            invariant
                n == self.entries@.len(),
                i <= n,
                sum <= i,
                sum == 0 ==> forall|j: int| 0 <= j < i ==> (#[trigger] self.entries@[j]) is Empty,
                sum == 1 ==> 0 <= a < i && self.entries@[a] is KeyValue && forall|j: int|
                    0 <= j < i && j != a ==> (#[trigger] self.entries@[j]) is Empty,
                sum >= 2 ==> 0 <= a < b < i && self.entries@[a] is KeyValue
                    && self.entries@[b] is KeyValue,
            decreases n - i,
        {
            match &self.entries[i] {
                Entry::Empty => {},
                Entry::KeyValue(_, _) => {
                    proof {
                        if sum == 0 {
                            a = i as int;
                        } else if sum == 1 {
                            b = i as int;
                        }
                    }
                    sum += 1;
                },
                Entry::HAMT(_) => {
                    assert(!(self.entries@[i as int] is Empty) && !(self.entries@[i as int]
                        is KeyValue));
                    return false;
                },
                Entry::Bucket(_) => {
                    assert(!(self.entries@[i as int] is Empty) && !(self.entries@[i as int]
                        is KeyValue));
                    return false;
                },
            }
            i += 1;
        }
        proof {
            if sum == 1 {
                assert(self.entries@[a] is KeyValue);
            } else if sum >= 2 {
                assert(self.entries@[a] is KeyValue && self.entries@[b] is KeyValue);
            }
        }
        sum == 1
    }

    fn first(&self) -> (r: Option<(&K, &V)>) {
        self.first_pair()
    }
}

impl<K: Key, V: Value> PartialEq for HAMT<K, V> {
    fn eq(&self, other: &Self) -> (r: bool) {
        self.same_as(other)
    }
}

impl<K: Key, V: Value> PartialEqSpecImpl for HAMT<K, V> {
    open spec fn obeys_eq_spec() -> bool {
        true
    }

    open spec fn eq_spec(&self, other: &Self) -> bool {
        self.same(other)
    }
}

/// The pairs that the frames of a walk have yet to give: those of the last frame first.
spec fn frames_pairs<K, V>(frames: Seq<(&HAMT<K, V>, usize)>) -> Seq<(K, V)>
    decreases frames.len(),
{
    if frames.len() == 0 {
        Seq::empty()
    } else {
        frames.last().0.pairs_from(frames.last().1 as nat) + frames_pairs(frames.drop_last())
    }
}

/// A bound on the steps that a walk spends on its frames.
spec fn frames_work<K, V>(frames: Seq<(&HAMT<K, V>, usize)>) -> nat
    decreases frames.len(),
{
    if frames.len() == 0 {
        0
    } else {
        frames.last().0.work_from(frames.last().1 as nat) + frames_work(frames.drop_last())
    }
}

/// A walk over the pairs of a trie: slot by slot, and below a slot before the next.
#[derive(Clone, Debug)]
pub struct HAMTIterator<'a, K, V> {
    hamts: Vec<(&'a HAMT<K, V>, usize)>,
    bucket_iterator: Option<BucketIterator<'a, K, V>>,
}

impl<'a, K, V> HAMTIterator<'a, K, V> {
    /// Each frame stands at a slot of its node or behind the last, and so does the walk
    /// of a bucket, if one is under way.
    pub closed spec fn wf(&self) -> bool {
        &&& forall|j: int|
            0 <= j < self.hamts@.len() ==> (#[trigger] self.hamts@[j]).1
                <= self.hamts@[j].0.entries@.len()
        &&& self.bucket_iterator matches Some(b) ==> b.wf()
    }

    /// The pairs that the walk has yet to give, in order.
    pub closed spec fn remaining(&self) -> Seq<(K, V)> {
        (match self.bucket_iterator {
            Some(b) => b.remaining(),
            None => Seq::empty(),
        }) + frames_pairs(self.hamts@)
    }

    /// Gives the next pair, if one is left, and moves past it.
    pub fn next(&mut self) -> (r: Option<(&'a K, &'a V)>)
        requires
            old(self).wf(),
        ensures
            final(self).wf(),
            match r {
                Some(p) => {
                    &&& old(self).remaining().len() > 0
                    &&& (*p.0, *p.1) == old(self).remaining()[0]
                    &&& final(self).remaining() == old(self).remaining().skip(1)
                },
                None => {
                    &&& old(self).remaining().len() == 0
                    &&& final(self).remaining() == old(self).remaining()
                },
            },
    {
        loop
            invariant
                self.wf(),
                self.remaining() == old(self).remaining(),
            decreases frames_work(self.hamts@),
        {
            match self.bucket_iterator.take() {
                Some(mut b) => {
                    let ghost before = b.remaining();
                    match b.next() {
                        Some(p) => {
                            self.bucket_iterator = Some(b);
                            proof {
                                assert(self.remaining() =~= old(self).remaining().skip(1));
                            }
                            return Some(p);
                        },
                        None => {
                            assert(before + frames_pairs(self.hamts@) =~= frames_pairs(
                                self.hamts@,
                            ));
                        },
                    }
                },
                None => {},
            }
            assert(self.bucket_iterator is None);
            assert(self.remaining() =~= frames_pairs(self.hamts@));
            let ghost frames = self.hamts@;
            match self.hamts.pop() {
                None => {
                    return None;
                },
                Some((h, i)) => {
                    let ghost below = frames.drop_last();
                    assert(frames.last() == (h, i));
                    assert(self.hamts@ == below);
                    if i == h.entries.len() {
                        assert(h.pairs_from(i as nat) =~= Seq::<(K, V)>::empty());
                        assert(frames_pairs(frames) =~= frames_pairs(below));
                    } else {
                        self.hamts.push((h, i + 1));
                        let ghost above = self.hamts@;
                        proof {
                            assert(above.drop_last() =~= below);
                            assert(above.last() == (h, (i + 1) as usize));
                            assert(frames_pairs(frames) =~= h.entries@[i as int].pairs()
                                + frames_pairs(above));
                            assert(frames_work(frames) == 1 + h.entries@[i as int].work()
                                + frames_work(above));
                        }
                        match &h.entries[i] {
                            Entry::Empty => {
                                assert(h.entries@[i as int].pairs() =~= Seq::<(K, V)>::empty());
                                assert(frames_pairs(frames) =~= frames_pairs(above));
                            },
                            Entry::HAMT(c) => {
                                self.hamts.push((&**c, 0));
                                proof {
                                    assert(self.hamts@.drop_last() =~= above);
                                    c.lemma_pairs_split(0);
                                    assert(c.pairs_upto(0) =~= Seq::<(K, V)>::empty());
                                    assert(c.pairs_from(0) =~= c.pairs());
                                    assert(h.entries@[i as int].pairs() == c.pairs());
                                    assert(h.entries@[i as int].work() == c.work_from(0));
                                }
                            },
                            Entry::KeyValue(k, v) => {
                                proof {
                                    assert(h.entries@[i as int].pairs() =~= seq![(*k, *v)]);
                                    assert(self.remaining() =~= old(self).remaining().skip(1));
                                }
                                return Some((k, v));
                            },
                            Entry::Bucket(b) => {
                                self.bucket_iterator = Some(b.iter());
                                assert(h.entries@[i as int].pairs() == b.pairs());
                            },
                        }
                    }
                },
            }
        }
    }
}

impl<K, V> HAMT<K, V> {
    /// A walk over the pairs of the node, from the first.
    pub fn iter(&self) -> (r: HAMTIterator<'_, K, V>)
        ensures
            r.wf(),
            r.remaining() == self.pairs(),
    {
        let mut hamts: Vec<(&HAMT<K, V>, usize)> = Vec::new();
        hamts.push((self, 0));
        let r = HAMTIterator { hamts, bucket_iterator: None };
        proof {
            self.lemma_pairs_split(0);
            assert(self.pairs_upto(0) =~= Seq::<(K, V)>::empty());
            assert(self.pairs_from(0) =~= self.pairs());
            assert(r.hamts@.drop_last() =~= Seq::<(&HAMT<K, V>, usize)>::empty());
            assert(frames_pairs(r.hamts@.drop_last()) =~= Seq::<(K, V)>::empty());
            assert(r.remaining() =~= self.pairs());
        }
        r
    }
}

impl<K: Key, V> HAMT<K, V> {
    /// A well-formed node holds no key twice.
    pub proof fn lemma_distinct(&self, level: nat)
        requires
            self.wf(level),
        ensures
            distinct_keys(self.pairs()),
        decreases self, NUM_ENTRIES + 1,
    {
        self.lemma_pairs_upto_slots(level, NUM_ENTRIES as nat);
    }

    /// A well-formed node is finite and holds as many pairs as its map has entries.
    pub proof fn lemma_len(&self, level: nat)
        requires
            self.wf(level),
        ensures
            self@.dom().finite(),
            self@.len() == self.pairs().len(),
    {
        self.lemma_distinct(level);
        lemma_pairs_map_len(self.pairs());
    }

    /// A well-formed node is normal.
    pub proof fn law_normal(&self, level: nat)
        requires
            self.wf(level),
        ensures
            self.normal(),
        decreases self,
    {
        assert forall|i: int| 0 <= i < self.entries@.len() implies (
        #[trigger] self.entries@[i]).normal() by {
            assert(self.entries@[i].wf_at(level, i));
            match self.entries@[i] {
                Entry::HAMT(h) => {
                    h.law_normal(level + 1);
                },
                _ => {},
            }
        }
    }

    /// A well-formed node with one pair is a singleton: the pair stands in a slot, not
    /// below one.
    pub proof fn lemma_one_is_singleton(&self, level: nat)
        requires
            self.wf(level),
            self.pairs().len() == 1,
        ensures
            self.singleton(),
    {
        let n = self.entries@.len();
        let i = self.lemma_occupied(n);
        self.lemma_len_one(n, i);
        assert(self.entries@[i].wf_at(level, i));
        assert(self.entries@[i] is KeyValue);
        assert forall|j: int| 0 <= j < n && j != i implies (#[trigger] self.entries@[j]) is Empty by {
            if j < i {
                self.lemma_len_two(n, j, i);
            } else {
                self.lemma_len_two(n, i, j);
            }
            assert(self.entries@[j].wf_at(level, j));
        }
    }

    /// A walk of a well-formed node goes by ascending slots, and below a slot by the
    /// ascending slots of the next level: of two pairs, the walk meets first the one
    /// whose key selects the lower slot at the first level at which the two keys differ.
    pub proof fn law_walk_order(&self, level: nat)
        requires
            self.wf(level),
        ensures
            forall|a: int, b: int|
                0 <= a <= b < self.pairs().len() ==> walk_order(
                    #[trigger] self.pairs()[a].0,
                    #[trigger] self.pairs()[b].0,
                    level,
                ),
        decreases self, NUM_ENTRIES + 1,
    {
        self.lemma_pairs_upto_ordered(level, NUM_ENTRIES as nat);
        assert(self.pairs() == self.pairs_upto(NUM_ENTRIES as nat));
    }

    /// At the deepest level, where a hash has no chunk left, two keys that select one slot
    /// stand in a bucket in that slot.
    pub proof fn law_collision_bucket(&self, a: K, b: K)
        requires
            self.wf(MAX_LEVEL as nat),
            self@.contains_key(a),
            self@.contains_key(b),
            a != b,
            key_slot(a, MAX_LEVEL as nat) == key_slot(b, MAX_LEVEL as nat),
        ensures
            0 <= key_slot(a, MAX_LEVEL as nat) < NUM_ENTRIES,
            self.entries()[key_slot(a, MAX_LEVEL as nat)] matches Entry::Bucket(bucket)
                && bucket@.contains_key(a) && bucket@.contains_key(b),
    {
        let level = MAX_LEVEL as nat;
        let i = key_slot(a, level);
        self.lemma_by_slot(level, a);
        self.lemma_by_slot(level, b);
        assert(self.entries@[i].wf_at(level, i));
        match self.entries@[i] {
            Entry::KeyValue(k, v) => {
                let x = index_of_key(seq![(k, v)], a);
                let y = index_of_key(seq![(k, v)], b);
                assert(seq![(k, v)][x].0 == a && seq![(k, v)][y].0 == b);
            },
            _ => {},
        }
    }

    /// Canonical form: two well-formed nodes of one level that hold the same entries are
    /// the same slot by slot, however each was built.
    pub proof fn lemma_canonical(&self, other: &Self, level: nat)
        requires
            self.wf(level),
            other.wf(level),
            self@ == other@,
        ensures
            self.same(other),
        decreases self,
    {
        assert forall|i: int| 0 <= i < self.entries@.len() implies (
        #[trigger] self.entries@[i]).same(other.entries@[i]) by {
            let e = self.entries@[i];
            let f = other.entries@[i];
            assert(e.wf_at(level, i));
            assert(f.wf_at(level, i));
            e.lemma_pairs(level, i);
            f.lemma_pairs(level, i);
            assert forall|q: K|
                (#[trigger] pairs_map(e.pairs()).contains_key(q) <==> pairs_map(
                    f.pairs(),
                ).contains_key(q)) && (pairs_map(e.pairs()).contains_key(q) ==> pairs_map(
                    e.pairs(),
                )[q] == pairs_map(f.pairs())[q]) by {
                self.lemma_by_slot(level, q);
                other.lemma_by_slot(level, q);
                if has_key(e.pairs(), q) {
                    let j = index_of_key(e.pairs(), q);
                    assert(key_slot(e.pairs()[j].0, level) == i);
                }
                if has_key(f.pairs(), q) {
                    let j = index_of_key(f.pairs(), q);
                    assert(key_slot(f.pairs()[j].0, level) == i);
                }
            }
            assert(pairs_map(e.pairs()) =~= pairs_map(f.pairs()));
            lemma_pairs_map_len(e.pairs());
            lemma_pairs_map_len(f.pairs());
            match e {
                Entry::Empty => {},
                Entry::KeyValue(k, v) => {
                    lemma_pairs_map_one(k, v);
                    match f {
                        Entry::KeyValue(k2, v2) => {
                            lemma_pairs_map_one(k2, v2);
                            assert(map![k => v].contains_key(k));
                            assert(map![k2 => v2][k] == v);
                        },
                        _ => {},
                    }
                },
                Entry::HAMT(a) => {
                    match f {
                        Entry::HAMT(b) => {
                            a.lemma_canonical(&*b, level + 1);
                        },
                        _ => {},
                    }
                },
                Entry::Bucket(a) => {},
            }
        }
    }

    /// Two well-formed nodes of one level that are the same slot by slot hold the same
    /// entries.
    pub proof fn lemma_same_view(&self, other: &Self, level: nat)
        requires
            self.wf(level),
            other.wf(level),
            self.same(other),
        ensures
            self@ == other@,
        decreases self,
    {
        assert forall|q: K|
            (#[trigger] self@.contains_key(q) <==> other@.contains_key(q)) && (self@.contains_key(
                q,
            ) ==> self@[q] == other@[q]) by {
            self.lemma_by_slot(level, q);
            other.lemma_by_slot(level, q);
            let i = key_slot(q, level);
            let e = self.entries@[i];
            let f = other.entries@[i];
            assert(e.same(f));
            assert(e.wf_at(level, i));
            assert(f.wf_at(level, i));
            match e {
                Entry::HAMT(a) => {
                    match f {
                        Entry::HAMT(b) => {
                            a.lemma_same_view(&*b, level + 1);
                        },
                        _ => {},
                    }
                },
                _ => {},
            }
            assert(pairs_map(e.pairs()) == pairs_map(f.pairs()));
            assert(pairs_map(e.pairs()).contains_key(q) <==> has_key(e.pairs(), q));
            assert(pairs_map(f.pairs()).contains_key(q) <==> has_key(f.pairs(), q));
        }
        assert(self@ =~= other@);
    }
}

impl<K, V> HAMT<K, V> {
    /// A singleton holds exactly one pair.
    pub proof fn lemma_singleton_len(&self)
        requires
            self.singleton(),
        ensures
            self.pairs().len() == 1,
    {
        let i = choose|i: int|
            0 <= i < self.entries@.len() && (#[trigger] self.entries@[i]) is KeyValue && forall|
                j: int,
            |
                0 <= j < self.entries@.len() && j != i ==> (#[trigger] self.entries@[j]) is Empty;
        self.lemma_only(self.entries@.len(), i);
    }
}

impl<K: Key, V> Entry<K, V> {
    /// The pairs of an entry that may stand in a slot come in the order of a walk.
    proof fn lemma_ordered(self, level: nat, slot: int)
        requires
            self.wf_at(level, slot),
        ensures
            forall|a: int, b: int|
                0 <= a <= b < self.pairs().len() ==> walk_order(
                    #[trigger] self.pairs()[a].0,
                    #[trigger] self.pairs()[b].0,
                    level,
                ),
        decreases self,
    {
        self.lemma_pairs(level, slot);
        match self {
            Entry::Empty => {},
            Entry::KeyValue(k, v) => {
                lemma_walk_order_self(k, level);
            },
            Entry::HAMT(h) => {
                h.law_walk_order(level + 1);
            },
            Entry::Bucket(b) => {},
        }
    }

    /// An entry that may stand in a slot holds no key twice, and only keys that select
    /// the slot.
    pub proof fn lemma_pairs(self, level: nat, slot: int)
        requires
            self.wf_at(level, slot),
        ensures
            distinct_keys(self.pairs()),
            forall|j: int|
                0 <= j < self.pairs().len() ==> key_slot(#[trigger] self.pairs()[j].0, level)
                    == slot,
        decreases self,
    {
        match self {
            Entry::Empty => {},
            Entry::KeyValue(k, v) => {},
            Entry::HAMT(h) => {
                h.lemma_distinct(level + 1);
            },
            Entry::Bucket(b) => {},
        }
    }
}

impl<K, V> HAMT<K, V> {
    /// The first `i` slots and the slots from `i` on hold all pairs of the node.
    proof fn lemma_pairs_split(&self, i: nat)
        requires
            i <= self.entries@.len(),
        ensures
            self.pairs_upto(i) + self.pairs_from(i) == self.pairs(),
        decreases self.entries@.len() - i,
    {
        if i < self.entries@.len() {
            self.lemma_pairs_split(i + 1);
            assert(self.pairs_upto(i + 1) == self.pairs_upto(i) + self.entries@[i as int].pairs());
            assert(self.pairs_upto(i) + self.pairs_from(i) =~= self.pairs_upto(i + 1)
                + self.pairs_from(i + 1));
        } else {
            assert(self.pairs_upto(i) + self.pairs_from(i) =~= self.pairs());
        }
    }

    /// The first `n` slots hold at least what one of them holds.
    proof fn lemma_len_one(&self, n: nat, i: int)
        requires
            0 <= i < n <= self.entries@.len(),
        ensures
            self.pairs_upto(n).len() >= self.entries@[i].pairs().len(),
        decreases n,
    {
        if i < n - 1 {
            self.lemma_len_one((n - 1) as nat, i);
        }
    }

    /// The first `n` slots hold at least what two of them hold.
    proof fn lemma_len_two(&self, n: nat, i: int, j: int)
        requires
            0 <= i < j < n <= self.entries@.len(),
        ensures
            self.pairs_upto(n).len() >= self.entries@[i].pairs().len()
                + self.entries@[j].pairs().len(),
        decreases n,
    {
        if j < n - 1 {
            self.lemma_len_two((n - 1) as nat, i, j);
        } else {
            self.lemma_len_one((n - 1) as nat, i);
        }
    }

    /// A slot among the first `n` that is not without pairs, where those slots hold any.
    proof fn lemma_occupied(&self, n: nat) -> (i: int)
        requires
            n <= self.entries@.len(),
            self.pairs_upto(n).len() > 0,
        ensures
            0 <= i < n,
            self.entries@[i].pairs().len() > 0,
        decreases n,
    {
        if self.entries@[n - 1].pairs().len() > 0 {
            n - 1
        } else {
            self.lemma_occupied((n - 1) as nat)
        }
    }

    /// Where all but slot `i` are empty, the node holds what slot `i` holds.
    proof fn lemma_only(&self, n: nat, i: int)
        requires
            n <= self.entries@.len(),
            0 <= i < self.entries@.len(),
            forall|j: int|
                0 <= j < self.entries@.len() && j != i ==> (#[trigger] self.entries@[j]) is Empty,
        ensures
            self.pairs_upto(n) == if i < n {
                self.entries@[i].pairs()
            } else {
                Seq::<(K, V)>::empty()
            },
        decreases n,
    {
        if n > 0 {
            self.lemma_only((n - 1) as nat, i);
            if n - 1 != i {
                assert(self.entries@[n - 1] is Empty);
                assert(self.entries@[n - 1].pairs() =~= Seq::<(K, V)>::empty());
                assert(self.pairs_upto(n) =~= self.pairs_upto((n - 1) as nat));
            } else {
                assert(self.pairs_upto(n) =~= self.entries@[i].pairs());
            }
        }
    }
}

impl<K: Key, V> HAMT<K, V> {
    /// The first `m` slots hold a prefix of what the first `n` hold.
    proof fn lemma_pairs_upto_prefix(&self, m: nat, n: nat)
        requires
            m <= n <= self.entries@.len(),
        ensures
            self.pairs_upto(m).len() <= self.pairs_upto(n).len(),
            self.pairs_upto(m) == self.pairs_upto(n).take(self.pairs_upto(m).len() as int),
        decreases n,
    {
        if m < n {
            self.lemma_pairs_upto_prefix(m, (n - 1) as nat);
            assert(self.pairs_upto(m) =~= self.pairs_upto(n).take(self.pairs_upto(m).len() as int));
        } else {
            assert(self.pairs_upto(m) =~= self.pairs_upto(n).take(self.pairs_upto(m).len() as int));
        }
    }

    /// The pairs of the first `n` slots of a well-formed node have distinct keys, each
    /// selecting one of those slots.
    proof fn lemma_pairs_upto_slots(&self, level: nat, n: nat)
        requires
            self.wf(level),
            n <= NUM_ENTRIES,
        ensures
            distinct_keys(self.pairs_upto(n)),
            forall|j: int|
                0 <= j < self.pairs_upto(n).len() ==> 0 <= key_slot(
                    #[trigger] self.pairs_upto(n)[j].0,
                    level,
                ) < n,
        decreases self, n,
    {
        if n > 0 {
            let a = self.pairs_upto((n - 1) as nat);
            let e = self.entries@[n - 1];
            let b = e.pairs();
            self.lemma_pairs_upto_slots(level, (n - 1) as nat);
            assert(e.wf_at(level, n - 1));
            e.lemma_pairs(level, n - 1);
            assert forall|i: int, j: int| 0 <= i < a.len() && 0 <= j < b.len() implies a[i].0
                != b[j].0 by {
                assert(key_slot(a[i].0, level) < n - 1);
                assert(key_slot(b[j].0, level) == n - 1);
            }
            lemma_distinct_concat(a, b);
            assert forall|j: int| 0 <= j < (a + b).len() implies 0 <= key_slot(
                #[trigger] (a + b)[j].0,
                level,
            ) < n by {
                if j < a.len() {
                    assert((a + b)[j] == a[j]);
                } else {
                    assert((a + b)[j] == b[j - a.len()]);
                }
            }
        }
    }

    /// The pairs of the first `n` slots of a well-formed node come in the order of a walk.
    proof fn lemma_pairs_upto_ordered(&self, level: nat, n: nat)
        requires
            self.wf(level),
            n <= NUM_ENTRIES,
        ensures
            forall|a: int, b: int|
                0 <= a <= b < self.pairs_upto(n).len() ==> walk_order(
                    #[trigger] self.pairs_upto(n)[a].0,
                    #[trigger] self.pairs_upto(n)[b].0,
                    level,
                ),
        decreases self, n,
    {
        if n > 0 {
            let p = self.pairs_upto((n - 1) as nat);
            let e = self.entries@[n - 1];
            let q = e.pairs();
            self.lemma_pairs_upto_ordered(level, (n - 1) as nat);
            self.lemma_pairs_upto_slots(level, (n - 1) as nat);
            assert(e.wf_at(level, n - 1));
            e.lemma_pairs(level, n - 1);
            e.lemma_ordered(level, n - 1);
            assert forall|a: int, b: int| 0 <= a <= b < (p + q).len() implies walk_order(
                #[trigger] (p + q)[a].0,
                #[trigger] (p + q)[b].0,
                level,
            ) by {
                if b < p.len() {
                    assert((p + q)[a] == p[a] && (p + q)[b] == p[b]);
                } else if a < p.len() {
                    assert((p + q)[a] == p[a] && (p + q)[b] == q[b - p.len()]);
                    assert(key_slot(p[a].0, level) < n - 1);
                    assert(key_slot(q[b - p.len()].0, level) == n - 1);
                } else {
                    assert((p + q)[a] == q[a - p.len()] && (p + q)[b] == q[b - p.len()]);
                }
            }
        }
    }

    /// Among the first `n` slots of a well-formed node, a key is found only under the
    /// slot that it selects.
    proof fn lemma_pairs_upto_key(&self, level: nat, n: nat, k: K)
        requires
            self.wf(level),
            n <= NUM_ENTRIES,
        ensures
            0 <= key_slot(k, level) < NUM_ENTRIES,
            has_key(self.pairs_upto(n), k) <==> key_slot(k, level) < n && has_key(
                self.entries@[key_slot(k, level)].pairs(),
                k,
            ),
            has_key(self.pairs_upto(n), k) ==> pairs_map(self.pairs_upto(n))[k] == pairs_map(
                self.entries@[key_slot(k, level)].pairs(),
            )[k],
        decreases n,
    {
        lemma_slot_in_range(hash_at(k.hash_spec(), level));
        if n > 0 {
            let a = self.pairs_upto((n - 1) as nat);
            let e = self.entries@[n - 1];
            let b = e.pairs();
            self.lemma_pairs_upto_key(level, (n - 1) as nat, k);
            self.lemma_pairs_upto_slots(level, n);
            lemma_pairs_concat(a, b, k);
            assert(e.wf_at(level, n - 1));
            e.lemma_pairs(level, n - 1);
            if has_key(b, k) {
                let j = index_of_key(b, k);
                assert(key_slot(b[j].0, level) == n - 1);
            }
        } else {
            assert(!has_key(self.pairs_upto(n), k));
        }
    }

    /// In a well-formed node a key is found only under the slot that it selects.
    proof fn lemma_by_slot(&self, level: nat, k: K)
        requires
            self.wf(level),
        ensures
            0 <= key_slot(k, level) < NUM_ENTRIES,
            self@.contains_key(k) <==> has_key(self.entries@[key_slot(k, level)].pairs(), k),
            self@.contains_key(k) ==> self@[k] == pairs_map(
                self.entries@[key_slot(k, level)].pairs(),
            )[k],
    {
        self.lemma_pairs_upto_key(level, NUM_ENTRIES as nat, k);
    }

    /// A node that differs from a well-formed one in one entry is well-formed if that
    /// entry may stand in its slot.
    proof fn lemma_wf_update(&self, new: &Self, level: nat, i: int, e: Entry<K, V>)
        requires
            self.wf(level),
            0 <= i < NUM_ENTRIES,
            new.entries@ == self.entries@.update(i, e),
            e.wf_at(level, i),
        ensures
            new.wf(level),
    {
        assert forall|j: int| 0 <= j < NUM_ENTRIES implies (#[trigger] new.entries@[j]).wf_at(
            level,
            j,
        ) by {
            if j != i {
                assert(new.entries@[j] == self.entries@[j]);
            }
        }
    }

    /// How the number of pairs changes with one entry.
    proof fn lemma_len_update(&self, new: &Self, i: int, e: Entry<K, V>, n: nat)
        requires
            0 <= i < self.entries@.len(),
            n <= self.entries@.len(),
            new.entries@ == self.entries@.update(i, e),
        ensures
            new.pairs_upto(n).len() + (if i < n {
                self.entries@[i].pairs().len()
            } else {
                0
            }) == self.pairs_upto(n).len() + (if i < n {
                e.pairs().len()
            } else {
                0
            }),
        decreases n,
    {
        if n > 0 {
            self.lemma_len_update(new, i, e, (n - 1) as nat);
            if n - 1 != i {
                assert(new.entries@[n - 1] == self.entries@[n - 1]);
            }
        }
    }

    /// Putting a pair into the entry of the slot that its key selects puts it into the
    /// node.
    proof fn lemma_insert_update(&self, new: &Self, level: nat, e: Entry<K, V>, k: K, v: V)
        requires
            self.wf(level),
            new.entries@ == self.entries@.update(key_slot(k, level), e),
            e.wf_at(level, key_slot(k, level)),
            pairs_map(e.pairs()) == pairs_map(self.entries@[key_slot(k, level)].pairs()).insert(
                k,
                v,
            ),
        ensures
            new.wf(level),
            new@ == self@.insert(k, v),
            new.pairs().len() + self.entries@[key_slot(k, level)].pairs().len()
                == self.pairs().len() + e.pairs().len(),
    {
        let i = key_slot(k, level);
        lemma_slot_in_range(hash_at(k.hash_spec(), level));
        self.lemma_wf_update(new, level, i, e);
        self.lemma_len_update(new, i, e, NUM_ENTRIES as nat);
        assert forall|q: K|
            (#[trigger] new@.contains_key(q) <==> self@.insert(k, v).contains_key(q)) && (
            new@.contains_key(q) ==> new@[q] == self@.insert(k, v)[q]) by {
            self.lemma_by_slot(level, q);
            new.lemma_by_slot(level, q);
            if key_slot(q, level) != i {
                assert(new.entries@[key_slot(q, level)] == self.entries@[key_slot(q, level)]);
            } else {
                assert(new.entries@[i] == e);
                assert(pairs_map(e.pairs()).contains_key(q) <==> has_key(e.pairs(), q));
                assert(pairs_map(self.entries@[i].pairs()).contains_key(q) <==> has_key(
                    self.entries@[i].pairs(),
                    q,
                ));
            }
        }
        assert(new@ =~= self@.insert(k, v));
    }

    /// Taking a key out of the entry of the slot that it selects takes it out of the
    /// node.
    proof fn lemma_remove_update(&self, new: &Self, level: nat, e: Entry<K, V>, k: K)
        requires
            self.wf(level),
            new.entries@ == self.entries@.update(key_slot(k, level), e),
            e.wf_at(level, key_slot(k, level)),
            pairs_map(e.pairs()) == pairs_map(self.entries@[key_slot(k, level)].pairs()).remove(k),
        ensures
            new.wf(level),
            new@ == self@.remove(k),
            new.pairs().len() + self.entries@[key_slot(k, level)].pairs().len()
                == self.pairs().len() + e.pairs().len(),
    {
        let i = key_slot(k, level);
        lemma_slot_in_range(hash_at(k.hash_spec(), level));
        self.lemma_wf_update(new, level, i, e);
        self.lemma_len_update(new, i, e, NUM_ENTRIES as nat);
        assert forall|q: K|
            (#[trigger] new@.contains_key(q) <==> self@.remove(k).contains_key(q)) && (
            new@.contains_key(q) ==> new@[q] == self@.remove(k)[q]) by {
            self.lemma_by_slot(level, q);
            new.lemma_by_slot(level, q);
            if key_slot(q, level) != i {
                assert(new.entries@[key_slot(q, level)] == self.entries@[key_slot(q, level)]);
            } else {
                assert(new.entries@[i] == e);
                assert(pairs_map(e.pairs()).contains_key(q) <==> has_key(e.pairs(), q));
                assert(pairs_map(self.entries@[i].pairs()).contains_key(q) <==> has_key(
                    self.entries@[i].pairs(),
                    q,
                ));
            }
        }
        assert(new@ =~= self@.remove(k));
    }

    /// What a removal leaves of a node below a slot may stand in that slot, as its one
    /// pair where one pair is left and as a node else, and holds what the node held
    /// without the key that was removed.
    proof fn lemma_rest_of_node(&self, rest: &Self, level: nat, slot: int, k: K)
        requires
            Entry::HAMT(Arc::new(*self)).wf_at(level, slot),
            rest.wf(level + 1),
            rest@ == self@.remove(k),
            rest.pairs().len() + 1 == self.pairs().len(),
        ensures
            Entry::of_hamt(*rest).wf_at(level, slot),
            Entry::of_hamt(*rest).pairs() == rest.pairs(),
    {
        if rest.singleton() {
            rest.lemma_singleton_len();
            assert(rest.pairs() =~= seq![(rest.pairs()[0].0, rest.pairs()[0].1)]);
        } else {
            if rest.pairs().len() == 1 {
                rest.lemma_one_is_singleton(level + 1);
            }
        }
        assert forall|j: int| 0 <= j < rest.pairs().len() implies key_slot(
            #[trigger] rest.pairs()[j].0,
            level,
        ) == slot by {
            let q = rest.pairs()[j].0;
            assert(has_key(rest.pairs(), q));
            assert(rest@.contains_key(q));
            assert(self@.contains_key(q));
            let a = index_of_key(self.pairs(), q);
            assert(key_slot(self.pairs()[a].0, level) == slot);
        }
    }

    /// What a removal leaves of a bucket below a slot may stand in that slot, as its one
    /// pair where one pair is left and as a bucket else.
    proof fn lemma_rest_of_bucket(b: &Bucket<K, V>, rest: &Bucket<K, V>, level: nat, slot: int, k: K)
        requires
            Entry::Bucket(Arc::new(*b)).wf_at(level, slot),
            rest.wf(),
            rest@ == b@.remove(k),
            rest.pairs().len() + 1 == b.pairs().len(),
        ensures
            Entry::of_bucket(*rest).wf_at(level, slot),
            Entry::of_bucket(*rest).pairs() == rest.pairs(),
    {
        if rest.pairs().len() == 1 {
            assert(rest.pairs() =~= seq![(rest.pairs()[0].0, rest.pairs()[0].1)]);
        }
        assert forall|j: int| 0 <= j < rest.pairs().len() implies key_slot(
            #[trigger] rest.pairs()[j].0,
            level,
        ) == slot by {
            let q = rest.pairs()[j].0;
            assert(has_key(rest.pairs(), q));
            assert(rest@.contains_key(q));
            assert(b@.contains_key(q));
            let a = index_of_key(b.pairs(), q);
            assert(key_slot(b.pairs()[a].0, level) == slot);
        }
    }
}

impl<K: Key, V: Value> HAMT<K, V> {
    /// A node whose slots are all empty holds nothing.
    proof fn lemma_empty(&self, n: nat)
        requires
            n <= self.entries@.len(),
            forall|i: int| 0 <= i < n ==> self.entries@[i] == Entry::<K, V>::Empty,
        ensures
            self.pairs_upto(n) == Seq::<(K, V)>::empty(),
        decreases n,
    {
        if n > 0 {
            self.lemma_empty((n - 1) as nat);
            assert(self.entries@[n - 1].pairs() =~= Seq::<(K, V)>::empty());
            assert(self.pairs_upto(n) =~= Seq::<(K, V)>::empty());
        }
    }
}

} // verus!
