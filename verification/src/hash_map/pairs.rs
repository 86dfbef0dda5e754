use vstd::prelude::*;

verus! {

/// No key occurs twice in `s`.
pub open spec fn distinct_keys<K, V>(s: Seq<(K, V)>) -> bool {
    forall|i: int, j: int| 0 <= i < j < s.len() ==> s[i].0 != s[j].0
}

/// Some pair of `s` has the key `k`.
pub open spec fn has_key<K, V>(s: Seq<(K, V)>, k: K) -> bool {
    exists|i: int| 0 <= i < s.len() && s[i].0 == k
}

/// A position of `k` in `s`, where it has one.
pub open spec fn index_of_key<K, V>(s: Seq<(K, V)>, k: K) -> int {
    choose|i: int| 0 <= i < s.len() && s[i].0 == k
}

/// The map that a sequence of pairs stands for: each key that occurs, with the value
/// beside it.
pub open spec fn pairs_map<K, V>(s: Seq<(K, V)>) -> Map<K, V> {
    Map::new(|k: K| has_key(s, k), |k: K| s[index_of_key(s, k)].1)
}

/// With distinct keys, each pair of the sequence is an entry of its map.
pub proof fn lemma_pairs_map_at<K, V>(s: Seq<(K, V)>, i: int)
    requires
        distinct_keys(s),
        0 <= i < s.len(),
    ensures
        pairs_map(s).contains_key(s[i].0),
        pairs_map(s)[s[i].0] == s[i].1,
{
    assert(has_key(s, s[i].0));
}

/// Appending a pair with a new key inserts it into the map.
pub proof fn lemma_pairs_map_push<K, V>(s: Seq<(K, V)>, k: K, v: V)
    requires
        distinct_keys(s),
        !has_key(s, k),
    ensures
        distinct_keys(s.push((k, v))),
        pairs_map(s.push((k, v))) == pairs_map(s).insert(k, v),
{
    let t = s.push((k, v));
    assert(distinct_keys(t)) by {
        assert forall|i: int, j: int| 0 <= i < j < t.len() implies t[i].0 != t[j].0 by {
            if j == s.len() {
                assert(s[i].0 == t[i].0);
            } else {
                assert(s[i].0 == t[i].0 && s[j].0 == t[j].0);
            }
        }
    }
    assert forall|q: K| #[trigger] has_key(t, q) <==> (q == k || has_key(s, q)) by {
        if has_key(t, q) {
            let i = index_of_key(t, q);
            if i < s.len() {
                assert(s[i].0 == q);
            }
        }
        if has_key(s, q) {
            let i = index_of_key(s, q);
            assert(t[i].0 == q);
        }
        if q == k {
            assert(t[s.len() as int].0 == q);
        }
    }
    assert forall|q: K| has_key(t, q) implies #[trigger] pairs_map(t)[q] == pairs_map(s).insert(
        k,
        v,
    )[q] by {
        let i = index_of_key(t, q);
        if q == k {
            if i < s.len() {
                assert(s[i].0 == k);
            }
        } else {
            let j = index_of_key(s, q);
            assert(t[j].0 == q);
            if i != j {
                if i < j {
                    assert(t[i].0 != t[j].0);
                } else {
                    assert(t[j].0 != t[i].0);
                }
            }
        }
    }
    assert(pairs_map(t) =~= pairs_map(s).insert(k, v));
}

/// Replacing the value beside a key replaces it in the map.
pub proof fn lemma_pairs_map_update<K, V>(s: Seq<(K, V)>, i: int, v: V)
    requires
        distinct_keys(s),
        0 <= i < s.len(),
    ensures
        distinct_keys(s.update(i, (s[i].0, v))),
        pairs_map(s.update(i, (s[i].0, v))) == pairs_map(s).insert(s[i].0, v),
{
    let k = s[i].0;
    let t = s.update(i, (k, v));
    assert forall|a: int| 0 <= a < s.len() implies #[trigger] t[a].0 == s[a].0 by {}
    assert(distinct_keys(t));
    assert forall|q: K| #[trigger] has_key(t, q) <==> has_key(s, q) by {
        if has_key(t, q) {
            let a = index_of_key(t, q);
            assert(s[a].0 == q);
        }
        if has_key(s, q) {
            let a = index_of_key(s, q);
            assert(t[a].0 == q);
        }
    }
    assert(has_key(s, k));
    assert forall|q: K| has_key(t, q) implies #[trigger] pairs_map(t)[q] == pairs_map(s).insert(
        k,
        v,
    )[q] by {
        let a = index_of_key(t, q);
        let b = index_of_key(s, q);
        assert(t[b].0 == q);
        if a != b {
            if a < b {
                assert(t[a].0 != t[b].0);
            } else {
                assert(t[b].0 != t[a].0);
            }
        }
        if q == k {
            if a != i {
                if a < i {
                    assert(t[a].0 != t[i].0);
                } else {
                    assert(t[i].0 != t[a].0);
                }
            }
        }
    }
    assert(pairs_map(t) =~= pairs_map(s).insert(k, v));
}

/// Taking a pair out removes its key from the map.
pub proof fn lemma_pairs_map_remove<K, V>(s: Seq<(K, V)>, i: int)
    requires
        distinct_keys(s),
        0 <= i < s.len(),
    ensures
        distinct_keys(s.remove(i)),
        !has_key(s.remove(i), s[i].0),
        pairs_map(s.remove(i)) == pairs_map(s).remove(s[i].0),
{
    let k = s[i].0;
    let t = s.remove(i);
    assert forall|a: int| 0 <= a < t.len() implies #[trigger] t[a] == s[if a < i {
        a
    } else {
        a + 1
    }] by {}
    assert(distinct_keys(t)) by {
        assert forall|a: int, b: int| 0 <= a < b < t.len() implies t[a].0 != t[b].0 by {
            let a2 = if a < i {
                a
            } else {
                a + 1
            };
            let b2 = if b < i {
                b
            } else {
                b + 1
            };
            assert(t[a] == s[a2] && t[b] == s[b2]);
            assert(s[a2].0 != s[b2].0);
        }
    }
    assert forall|q: K| #[trigger] has_key(t, q) <==> (q != k && has_key(s, q)) by {
        if has_key(t, q) {
            let a = index_of_key(t, q);
            let a2 = if a < i {
                a
            } else {
                a + 1
            };
            assert(t[a] == s[a2]);
            assert(s[a2].0 == q);
            if a2 < i {
                assert(s[a2].0 != s[i].0);
            } else {
                assert(s[i].0 != s[a2].0);
            }
        }
        if q != k && has_key(s, q) {
            let a = index_of_key(s, q);
            let a2 = if a < i {
                a
            } else {
                a - 1
            };
            assert(t[a2] == s[a]);
            assert(t[a2].0 == q);
        }
    }
    assert forall|q: K| has_key(t, q) implies #[trigger] pairs_map(t)[q] == pairs_map(s).remove(
        k,
    )[q] by {
        let a = index_of_key(t, q);
        let a2 = if a < i {
            a
        } else {
            a + 1
        };
        assert(t[a] == s[a2]);
        let b = index_of_key(s, q);
        if a2 != b {
            if a2 < b {
                assert(s[a2].0 != s[b].0);
            } else {
                assert(s[b].0 != s[a2].0);
            }
        }
    }
    assert(pairs_map(t) =~= pairs_map(s).remove(k));
}

/// With distinct keys, the map has as many entries as the sequence has pairs.
pub proof fn lemma_pairs_map_len<K, V>(s: Seq<(K, V)>)
    requires
        distinct_keys(s),
    ensures
        pairs_map(s).dom().finite(),
        pairs_map(s).len() == s.len(),
    decreases s.len(),
{
    if s.len() == 0 {
        assert(pairs_map(s) =~= Map::<K, V>::empty());
    } else {
        let t = s.drop_last();
        let (k, v) = s.last();
        assert(s =~= t.push((k, v)));
        assert(distinct_keys(t)) by {
            assert forall|i: int, j: int| 0 <= i < j < t.len() implies t[i].0 != t[j].0 by {
                assert(t[i] == s[i] && t[j] == s[j]);
            }
        }
        assert(!has_key(t, k)) by {
            if has_key(t, k) {
                let i = index_of_key(t, k);
                assert(t[i] == s[i]);
                assert(s[i].0 != s[s.len() - 1].0);
            }
        }
        lemma_pairs_map_len(t);
        lemma_pairs_map_push(t, k, v);
    }
}

/// No pairs stand for the map without entries.
pub proof fn lemma_pairs_map_empty<K, V>()
    ensures
        pairs_map(Seq::<(K, V)>::empty()) == Map::<K, V>::empty(),
{
    assert(pairs_map(Seq::<(K, V)>::empty()) =~= Map::<K, V>::empty());
}

/// A single pair stands for the map with that one entry.
pub proof fn lemma_pairs_map_one<K, V>(k: K, v: V)
    ensures
        distinct_keys(seq![(k, v)]),
        pairs_map(seq![(k, v)]) == map![k => v],
{
    assert(seq![(k, v)] =~= Seq::<(K, V)>::empty().push((k, v)));
    lemma_pairs_map_empty::<K, V>();
    lemma_pairs_map_push(Seq::<(K, V)>::empty(), k, v);
}

/// A key occurs in a concatenation exactly when it occurs in one of the two parts, and
/// with distinct keys the value beside it is the one of that part.
pub proof fn lemma_pairs_concat<K, V>(a: Seq<(K, V)>, b: Seq<(K, V)>, k: K)
    ensures
        has_key(a + b, k) <==> has_key(a, k) || has_key(b, k),
        distinct_keys(a + b) && has_key(a, k) ==> pairs_map(a + b)[k] == pairs_map(a)[k],
        distinct_keys(a + b) && has_key(b, k) ==> pairs_map(a + b)[k] == pairs_map(b)[k],
{
    let c = a + b;
    if has_key(c, k) {
        let i = index_of_key(c, k);
        if i < a.len() {
            assert(a[i].0 == k);
        } else {
            assert(b[i - a.len()].0 == k);
        }
    }
    if has_key(a, k) {
        let j = index_of_key(a, k);
        assert(c[j] == a[j]);
        assert(has_key(c, k));
        if distinct_keys(c) {
            let i = index_of_key(c, k);
            if i < j {
                assert(c[i].0 != c[j].0);
            } else if j < i {
                assert(c[j].0 != c[i].0);
            }
        }
    }
    if has_key(b, k) {
        let j = index_of_key(b, k);
        assert(c[a.len() + j] == b[j]);
        assert(has_key(c, k));
        if distinct_keys(c) {
            let i = index_of_key(c, k);
            if i < a.len() + j {
                assert(c[i].0 != c[a.len() + j].0);
            } else if a.len() + j < i {
                assert(c[a.len() + j].0 != c[i].0);
            }
        }
    }
}

/// Two sequences with distinct keys and no key in common concatenate to one with distinct
/// keys.
pub proof fn lemma_distinct_concat<K, V>(a: Seq<(K, V)>, b: Seq<(K, V)>)
    requires
        distinct_keys(a),
        distinct_keys(b),
        forall|i: int, j: int| 0 <= i < a.len() && 0 <= j < b.len() ==> a[i].0 != b[j].0,
    ensures
        distinct_keys(a + b),
{
    let c = a + b;
    assert forall|i: int, j: int| 0 <= i < j < c.len() implies c[i].0 != c[j].0 by {
        if j < a.len() {
            assert(c[i] == a[i] && c[j] == a[j]);
        } else if i < a.len() {
            assert(c[i] == a[i] && c[j] == b[j - a.len()]);
        } else {
            assert(c[i] == b[i - a.len()] && c[j] == b[j - a.len()]);
        }
    }
}

} // verus!
