use super::key::duplicate;
use super::key::same;
use super::key::Key;
use super::key::Value;
use super::node::Node;
use super::pairs::distinct_keys;
use super::pairs::has_key;
use super::pairs::index_of_key;
use super::pairs::lemma_pairs_map_at;
use super::pairs::lemma_pairs_map_len;
use super::pairs::lemma_pairs_map_push;
use super::pairs::lemma_pairs_map_remove;
use super::pairs::lemma_pairs_map_update;
use super::pairs::pairs_map;
use vstd::prelude::*;
use vstd::std_specs::cmp::PartialEqSpecImpl;

verus! {

/// The pairs of keys whose hashes agree in every chunk, in the order in which the keys
/// came.
#[derive(Debug)]
pub struct Bucket<K, V> {
    pairs: Vec<(K, V)>,
}

impl<K, V> View for Bucket<K, V> {
    type V = Map<K, V>;

    open spec fn view(&self) -> Map<K, V> {
        pairs_map(self.pairs())
    }
}

impl<K, V> Bucket<K, V> {
    /// The pairs in the order in which they are held.
    pub closed spec fn pairs(&self) -> Seq<(K, V)> {
        self.pairs@
    }

    /// No key is held twice.
    #[verifier::type_invariant]
    pub open spec fn wf(&self) -> bool {
        distinct_keys(self.pairs())
    }

    /// A well-formed bucket holds as many pairs as its map has entries.
    pub proof fn lemma_len(&self)
        requires
            self.wf(),
        ensures
            self@.dom().finite(),
            self@.len() == self.pairs().len(),
    {
        lemma_pairs_map_len(self.pairs());
    }
}

impl<K: Key, V: Value> Bucket<K, V> {
    pub fn new(k: K, v: V) -> (r: Self)
        ensures
            r.wf(),
            r.pairs() == seq![(k, v)],
            r@ == map![k => v],
    {
        let pairs: Vec<(K, V)> = vec![(k, v)];
        proof {
            assert(pairs@ =~= Seq::<(K, V)>::empty().push((k, v)));
            lemma_pairs_map_push(Seq::<(K, V)>::empty(), k, v);
            assert(pairs_map(Seq::<(K, V)>::empty()) =~= Map::<K, V>::empty());
        }
        Self { pairs }
    }

    /// The position of `k`, if the bucket holds it.
    fn position(&self, k: &K) -> (r: Option<usize>)
        ensures
            match r {
                Some(i) => i < self.pairs().len() && self.pairs()[i as int].0 == *k,
                None => !has_key(self.pairs(), *k),
            },
    {
        let mut i: usize = 0;
        while i < self.pairs.len()
            invariant
                i <= self.pairs@.len(),
                forall|j: int| 0 <= j < i ==> self.pairs@[j].0 != *k,
            decreases self.pairs@.len() - i,
        {
            if same(&self.pairs[i].0, k) {
                return Some(i);
            }
            i += 1;
        }
        None
    }

    /// A copy of the first `n` pairs.
    fn copy_prefix(&self, n: usize) -> (r: Vec<(K, V)>)
        requires
            n <= self.pairs().len(),
        ensures
            r@ == self.pairs().take(n as int),
    {
        let mut pairs: Vec<(K, V)> = Vec::new();
        let mut i: usize = 0;
        while i < n
            invariant
                i <= n <= self.pairs@.len(),
                pairs@ == self.pairs@.take(i as int),
            decreases n - i,
        {
            pairs.push((duplicate(&self.pairs[i].0), duplicate(&self.pairs[i].1)));
            i += 1;
            assert(pairs@ =~= self.pairs@.take(i as int));
        }
        pairs
    }

    /// The bucket with `v` beside `k`: in the place of `k`'s old value where the bucket
    /// holds `k`, else behind the other pairs. The flag tells whether `k` is new.
    pub fn insert(&self, k: K, v: V) -> (r: (Self, bool))
        ensures
            r.0.wf(),
            r.0@ == self@.insert(k, v),
            r.1 == !self@.contains_key(k),
            r.1 ==> r.0.pairs() == self.pairs().push((k, v)),
            !r.1 ==> r.0.pairs() == self.pairs().update(index_of_key(self.pairs(), k), (k, v)),
    {
        proof {
            use_type_invariant(self);
        }
        let mut pairs: Vec<(K, V)> = self.copy_prefix(self.pairs.len());
        assert(pairs@ =~= self.pairs@);
        match self.position(&k) {
            Some(i) => {
                proof {
                    lemma_pairs_map_update(self.pairs@, i as int, v);
                    let j = index_of_key(self.pairs(), k);
                    if j != i {
                        if j < i {
                            assert(self.pairs@[j].0 != self.pairs@[i as int].0);
                        } else {
                            assert(self.pairs@[i as int].0 != self.pairs@[j].0);
                        }
                    }
                }
                pairs.set(i, (k, v));
                (Self { pairs }, false)
            },
            None => {
                proof {
                    lemma_pairs_map_push(self.pairs@, k, v);
                }
                pairs.push((k, v));
                (Self { pairs }, true)
            },
        }
    }

    /// The bucket without `k`, if it holds `k`.
    pub fn remove(&self, k: &K) -> (r: Option<Self>)
        ensures
            match r {
                Some(b) => {
                    &&& self@.contains_key(*k)
                    &&& b.wf()
                    &&& b@ == self@.remove(*k)
                    &&& b.pairs() == self.pairs().remove(index_of_key(self.pairs(), *k))
                },
                None => !self@.contains_key(*k),
            },
    {
        proof {
            use_type_invariant(self);
        }
        match self.position(k) {
            Some(i) => {
                let n: usize = self.pairs.len();
                let mut pairs: Vec<(K, V)> = self.copy_prefix(i);
                let mut j: usize = i + 1;
                while j < n
                    invariant
                        n == self.pairs@.len(),
                        i < j <= n,
                        pairs@ == self.pairs@.remove(i as int).take(j - 1),
                    decreases n - j,
                {
                    pairs.push((duplicate(&self.pairs[j].0), duplicate(&self.pairs[j].1)));
                    j += 1;
                    assert(pairs@ =~= self.pairs@.remove(i as int).take(j - 1));
                }
                proof {
                    assert(pairs@ =~= self.pairs@.remove(i as int));
                    lemma_pairs_map_remove(self.pairs@, i as int);
                    let a = index_of_key(self.pairs(), *k);
                    if a != i {
                        if a < i {
                            assert(self.pairs@[a].0 != self.pairs@[i as int].0);
                        } else {
                            assert(self.pairs@[i as int].0 != self.pairs@[a].0);
                        }
                    }
                }
                Some(Self { pairs })
            },
            None => None,
        }
    }

    /// The first pair and the bucket without it; nothing for a bucket without pairs.
    pub fn first_rest(&self) -> (r: Option<(&K, &V, Self)>)
        ensures
            match r {
                Some((k, v, rest)) => {
                    &&& self.pairs().len() > 0
                    &&& (*k, *v) == self.pairs()[0]
                    &&& rest.wf()
                    &&& rest.pairs() == self.pairs().skip(1)
                    &&& rest@ == self@.remove(*k)
                },
                None => self.pairs().len() == 0,
            },
    {
        proof {
            use_type_invariant(self);
        }
        let n: usize = self.pairs.len();
        if n == 0 {
            return None;
        }
        let mut pairs: Vec<(K, V)> = Vec::new();
        let mut j: usize = 1;
        while j < n
            invariant
                n == self.pairs@.len(),
                1 <= j <= n,
                pairs@ == self.pairs@.skip(1).take(j - 1),
            decreases n - j,
        {
            pairs.push((duplicate(&self.pairs[j].0), duplicate(&self.pairs[j].1)));
            j += 1;
            assert(pairs@ =~= self.pairs@.skip(1).take(j - 1));
        }
        proof {
            assert(pairs@ =~= self.pairs@.skip(1));
            assert(self.pairs@.skip(1) =~= self.pairs@.remove(0));
            lemma_pairs_map_remove(self.pairs@, 0);
        }
        Some((&self.pairs[0].0, &self.pairs[0].1, Self { pairs }))
    }

    /// The value beside `k`, if the bucket holds `k`.
    pub fn get(&self, k: &K) -> (r: Option<&V>)
        ensures
            match r {
                Some(v) => self@.contains_key(*k) && self@[*k] == *v,
                None => !self@.contains_key(*k),
            },
    {
        proof {
            use_type_invariant(self);
        }
        match self.position(k) {
            Some(i) => {
                proof {
                    lemma_pairs_map_at(self.pairs@, i as int);
                }
                Some(&self.pairs[i].1)
            },
            None => None,
        }
    }

    /// The number of pairs.
    pub fn len(&self) -> (n: usize)
        ensures
            n == self.pairs().len(),
            n == self@.len(),
    {
        proof {
            use_type_invariant(self);
            self.lemma_len();
        }
        self.pairs.len()
    }
}

/// A walk over the pairs of a bucket, in the order in which it holds them.
#[derive(Clone, Debug)]
pub struct BucketIterator<'a, K, V> {
    bucket: &'a Bucket<K, V>,
    index: usize,
}

impl<'a, K, V> BucketIterator<'a, K, V> {
    /// The walk has not gone past the last pair.
    pub closed spec fn wf(&self) -> bool {
        self.index <= self.bucket.pairs().len()
    }

    /// The pairs that the walk has yet to give, in order.
    pub closed spec fn remaining(&self) -> Seq<(K, V)> {
        self.bucket.pairs().skip(self.index as int)
    }

    /// Gives the next pair, if one is left, and moves past it.
    pub fn next(&mut self) -> (r: Option<(&'a K, &'a V)>)
        requires
            old(self).wf(),
        ensures
            final(self).wf(),
            match r {
                Some(p) => {
                    &&& old(self).remaining().len() > 0
                    &&& (*p.0, *p.1) == old(self).remaining()[0]
                    &&& final(self).remaining() == old(self).remaining().skip(1)
                },
                None => {
                    &&& old(self).remaining().len() == 0
                    &&& final(self).remaining() == old(self).remaining()
                },
            },
    {
        if self.index == self.bucket.pairs.len() {
            None
        } else {
            let pair: &'a (K, V) = &self.bucket.pairs[self.index];
            self.index += 1;
            proof {
                assert(final(self).remaining() =~= old(self).remaining().skip(1));
            }
            Some((&pair.0, &pair.1))
        }
    }
}

impl<K, V> Bucket<K, V> {
    /// A walk over the pairs, from the first.
    pub fn iter(&self) -> (r: BucketIterator<'_, K, V>)
        ensures
            r.wf(),
            r.remaining() == self.pairs(),
    {
        let r = BucketIterator { bucket: self, index: 0 };
        assert(r.remaining() =~= self.pairs());
        r
    }
}

impl<K: Key, V: Value> Clone for Bucket<K, V> {
    fn clone(&self) -> (r: Self)
        ensures
            r.pairs() == self.pairs(),
    {
        proof {
            use_type_invariant(self);
        }
        let pairs: Vec<(K, V)> = self.copy_prefix(self.pairs.len());
        assert(pairs@ =~= self.pairs@);
        Self { pairs }
    }
}

impl<K: Key, V: Value> PartialEq for Bucket<K, V> {
    /// Whether the two buckets hold the same pairs, in whatever order.
    fn eq(&self, other: &Self) -> (r: bool) {
        proof {
            use_type_invariant(self);
            use_type_invariant(other);
            self.lemma_len();
            other.lemma_len();
        }
        let n: usize = self.pairs.len();
        if n != other.pairs.len() {
            return false;
        }
        let mut i: usize = 0;
        while i < n
            invariant
                n == self.pairs@.len(),
                i <= n,
                self.wf(),
                forall|j: int|
                    0 <= j < i ==> other@.contains_key(#[trigger] self.pairs@[j].0)
                        && other@[self.pairs@[j].0] == self.pairs@[j].1,
            decreases n - i,
        {
            proof {
                lemma_pairs_map_at(self.pairs@, i as int);
            }
            match other.get(&self.pairs[i].0) {
                Some(v) => {
                    if !same(v, &self.pairs[i].1) {
                        return false;
                    }
                },
                None => {
                    return false;
                },
            }
            i += 1;
        }
        proof {
            assert forall|k: K| self@.contains_key(k) implies other@.contains_key(k) && other@[k]
                == self@[k] by {
                let j = index_of_key(self.pairs@, k);
                lemma_pairs_map_at(self.pairs@, j);
            }
            assert(self@.dom().subset_of(other@.dom()));
            vstd::set_lib::lemma_subset_equality(self@.dom(), other@.dom());
            assert(self@ =~= other@);
        }
        true
    }
}

impl<K: Key, V: Value> PartialEqSpecImpl for Bucket<K, V> {
    open spec fn obeys_eq_spec() -> bool {
        true
    }

    open spec fn eq_spec(&self, other: &Self) -> bool {
        self@ == other@
    }
}

impl<K: Key, V: Value> Node<K, V> for Bucket<K, V> {
    open spec fn contents(&self) -> Seq<(K, V)> {
        self.pairs()
    }

    open spec fn singleton(&self) -> bool {
        self.pairs().len() == 1
    }

    proof fn lemma_singleton(&self) {
    }

    fn is_singleton(&self) -> (r: bool) {
        self.pairs.len() == 1
    }

    fn first(&self) -> (r: Option<(&K, &V)>) {
        if self.pairs.len() == 0 {
            None
        } else {
            Some((&self.pairs[0].0, &self.pairs[0].1))
        }
    }
}

} // verus!
