//! Association lists as mathematical sequences of key-value pairs.
//!
//! Every table of this crate is modelled by a sequence of pairs whose keys
//! are pairwise different: the order of the pairs is the order in which the
//! keys were first written, and the value beside a key is what was written
//! for it last.

use vstd::prelude::*;

verus! {

/// The keys of the pairs of `s`, in order.
pub open spec fn keys<K, V>(s: Seq<(K, V)>) -> Seq<K> {
    s.map_values(|p: (K, V)| p.0)
}

/// The values of the pairs of `s`, in order.
pub open spec fn values<K, V>(s: Seq<(K, V)>) -> Seq<V> {
    s.map_values(|p: (K, V)| p.1)
}

/// What the last pair of `s` with key `k` holds, if there is such a pair.
pub open spec fn last_write<K, V>(s: Seq<(K, V)>, k: K) -> Option<V>
    decreases s.len(),
{
    if s.len() == 0 {
        None
    } else if s.last().0 == k {
        Some(s.last().1)
    } else {
        last_write(s.drop_last(), k)
    }
}

/// The elements of `s` without repetitions, each at the place of its first
/// occurrence.
pub open spec fn unique<T>(s: Seq<T>) -> Seq<T>
    decreases s.len(),
{
    if s.len() == 0 {
        s
    } else if unique(s.drop_last()).contains(s.last()) {
        unique(s.drop_last())
    } else {
        unique(s.drop_last()).push(s.last())
    }
}

/// `s` after writing `v` for `k`: the pair with key `k` is overwritten where
/// it stands, and a new key goes to the end.
pub open spec fn put<K, V>(s: Seq<(K, V)>, k: K, v: V) -> Seq<(K, V)> {
    if keys(s).contains(k) {
        s.update(keys(s).index_of(k), (k, v))
    } else {
        s.push((k, v))
    }
}

/// The table that a sequence of writes leaves behind: one pair for each key
/// written, in the order of the first writes, holding the last write.
pub open spec fn merged<K, V>(writes: Seq<(K, V)>) -> Seq<(K, V)> {
    let ks = unique(keys(writes));
    Seq::new(ks.len(), |i: int| (ks[i], last_write(writes, ks[i]).unwrap()))
}

/// The table as a map from keys to values.
pub open spec fn as_map<K, V>(s: Seq<(K, V)>) -> Map<K, V> {
    Map::new(|k: K| last_write(s, k) is Some, |k: K| last_write(s, k).unwrap())
}

/// A key has a last write exactly when it occurs among the keys.
pub proof fn lemma_last_write_is_some<K, V>(s: Seq<(K, V)>, k: K)
    ensures
        last_write(s, k) is Some <==> keys(s).contains(k),
    decreases s.len(),
{
    if s.len() != 0 {
        lemma_last_write_is_some(s.drop_last(), k);
        let t = s.drop_last();
        if s.last().0 == k {
            assert(keys(s)[s.len() - 1] == k);
        } else {
            if keys(t).contains(k) {
                let i = choose|i: int| 0 <= i < keys(t).len() && keys(t)[i] == k;
                assert(keys(s)[i] == k);
            }
            if keys(s).contains(k) {
                let i = choose|i: int| 0 <= i < keys(s).len() && keys(s)[i] == k;
                assert(keys(t)[i] == k);
            }
        }
    }
}

/// What a write holds is the value of some pair with that key.
pub proof fn lemma_last_write_is_a_pair<K, V>(s: Seq<(K, V)>, k: K)
    requires
        last_write(s, k) is Some,
    ensures
        s.contains((k, last_write(s, k).unwrap())),
    decreases s.len(),
{
    if s.last().0 != k {
        let t = s.drop_last();
        lemma_last_write_is_a_pair(t, k);
    }
}

/// Where the keys are pairwise different, each pair is the last write of its key.
pub proof fn lemma_last_write_at<K, V>(s: Seq<(K, V)>, i: int)
    requires
        keys(s).no_duplicates(),
        0 <= i < s.len(),
    ensures
        last_write(s, s[i].0) == Some(s[i].1),
    decreases s.len(),
{
    if i != s.len() - 1 {
        let t = s.drop_last();
        assert(keys(s)[i] != keys(s)[s.len() - 1]);
        assert forall|a: int, b: int|
            0 <= a < keys(t).len() && 0 <= b < keys(t).len() && a != b implies keys(t)[a] != keys(
            t,
        )[b] by {
            assert(keys(s)[a] != keys(s)[b]);
        }
        lemma_last_write_at(t, i);
    }
}

/// After one more pair, the last write of its key is that pair's value, and
/// every other key keeps its last write.
pub proof fn lemma_last_write_push<K, V>(s: Seq<(K, V)>, k: K, v: V, other: K)
    ensures
        last_write(s.push((k, v)), other) == if other == k {
            Some(v)
        } else {
            last_write(s, other)
        },
{
    assert(s.push((k, v)).drop_last() =~= s);
}

/// Overwriting one pair's value changes the last write of its key alone.
pub proof fn lemma_last_write_update<K, V>(s: Seq<(K, V)>, i: int, v: V, other: K)
    requires
        keys(s).no_duplicates(),
        0 <= i < s.len(),
    ensures
        last_write(s.update(i, (s[i].0, v)), other) == if other == s[i].0 {
            Some(v)
        } else {
            last_write(s, other)
        },
{
    let u = s.update(i, (s[i].0, v));
    assert(keys(u) =~= keys(s));
    if other == s[i].0 {
        lemma_last_write_at(u, i);
    } else {
        lemma_last_write_agrees(s, u, other);
    }
}

/// Two sequences that hold the same pairs wherever the key is `k` have the
/// same last write for `k`.
pub proof fn lemma_last_write_agrees<K, V>(s: Seq<(K, V)>, t: Seq<(K, V)>, k: K)
    requires
        s.len() == t.len(),
        forall|i: int| 0 <= i < s.len() ==> (s[i].0 == k || t[i].0 == k) ==> s[i] == t[i],
    ensures
        last_write(s, k) == last_write(t, k),
    decreases s.len(),
{
    if s.len() != 0 {
        if s.last().0 != k {
            lemma_last_write_agrees(s.drop_last(), t.drop_last(), k);
        }
    }
}

/// `unique` keeps every element once.
pub proof fn lemma_unique<T>(s: Seq<T>)
    ensures
        unique(s).no_duplicates(),
        unique(s).len() <= s.len(),
        forall|x: T| unique(s).contains(x) <==> s.contains(x),
    decreases s.len(),
{
    if s.len() != 0 {
        let t = s.drop_last();
        let u = unique(t);
        lemma_unique(t);
        assert forall|x: T| unique(s).contains(x) <==> s.contains(x) by {
            if s.contains(x) {
                let i = choose|i: int| 0 <= i < s.len() && s[i] == x;
                if i < t.len() {
                    assert(t[i] == x);
                    assert(t.contains(x));
                    let j = choose|j: int| 0 <= j < u.len() && u[j] == x;
                    assert(unique(s)[j] == x);
                } else {
                    if !u.contains(x) {
                        assert(unique(s)[u.len() as int] == x);
                    }
                }
            }
            if unique(s).contains(x) {
                let j = choose|j: int| 0 <= j < unique(s).len() && unique(s)[j] == x;
                if j < u.len() {
                    assert(t.contains(x));
                }
            }
        }
    }
}

/// A sequence without repetitions is its own `unique`.
pub proof fn lemma_unique_of_distinct<T>(s: Seq<T>)
    requires
        s.no_duplicates(),
    ensures
        unique(s) == s,
    decreases s.len(),
{
    if s.len() != 0 {
        let t = s.drop_last();
        lemma_unique_of_distinct(t);
    }
}

/// Repetitions may be dropped from the front part before they are dropped
/// from the whole.
pub proof fn lemma_unique_concat<T>(a: Seq<T>, b: Seq<T>)
    ensures
        unique(unique(a) + b) == unique(a + b),
    decreases b.len(),
{
    if b.len() == 0 {
        lemma_unique(a);
        lemma_unique_of_distinct(unique(a));
    } else {
        lemma_unique_concat(a, b.drop_last());
        assert((a + b).drop_last() =~= a + b.drop_last());
        assert((unique(a) + b).drop_last() =~= unique(a) + b.drop_last());
    }
}

/// Elements that occur before add nothing.
pub proof fn lemma_unique_absorbs<T>(a: Seq<T>, b: Seq<T>)
    requires
        forall|i: int| 0 <= i < b.len() ==> a.contains(#[trigger] b[i]),
    ensures
        unique(a + b) == unique(a),
    decreases b.len(),
{
    if b.len() != 0 {
        lemma_unique_absorbs(a, b.drop_last());
        assert((a + b).drop_last() =~= a + b.drop_last());
        lemma_unique(a);
    }
}

/// One more element is kept where it is new, and dropped where it is not.
pub proof fn lemma_unique_push<T>(s: Seq<T>, x: T)
    ensures
        unique(s.push(x)) == if unique(s).contains(x) {
            unique(s)
        } else {
            unique(s).push(x)
        },
{
    assert(s.push(x).drop_last() =~= s);
}

/// What `put` does to the keys and to the last writes of a table.
pub proof fn lemma_put<K, V>(s: Seq<(K, V)>, k: K, v: V)
    requires
        keys(s).no_duplicates(),
    ensures
        keys(put(s, k, v)).no_duplicates(),
        keys(put(s, k, v)) == if keys(s).contains(k) {
            keys(s)
        } else {
            keys(s).push(k)
        },
        forall|other: K| #[trigger]
            last_write(put(s, k, v), other) == if other == k {
                Some(v)
            } else {
                last_write(s, other)
            },
{
    if keys(s).contains(k) {
        let i = keys(s).index_of(k);
        assert(keys(s.update(i, (k, v))) =~= keys(s));
        assert forall|other: K| #[trigger]
            last_write(put(s, k, v), other) == if other == k {
                Some(v)
            } else {
                last_write(s, other)
            } by {
            lemma_last_write_update(s, i, v, other);
        }
    } else {
        assert(keys(s.push((k, v))) =~= keys(s).push(k));
        assert forall|other: K| #[trigger]
            last_write(put(s, k, v), other) == if other == k {
                Some(v)
            } else {
                last_write(s, other)
            } by {
            lemma_last_write_push(s, k, v, other);
        }
    }
}

/// A table is fixed by the order of its keys and by its last writes: one
/// whose keys are the first occurrences of the keys written, and whose last
/// writes are those of the writes, is `merged(writes)`.
pub proof fn lemma_merged_is_unique<K, V>(table: Seq<(K, V)>, writes: Seq<(K, V)>)
    requires
        keys(table) == unique(keys(writes)),
        forall|k: K| last_write(table, k) == last_write(writes, k),
    ensures
        table == merged(writes),
{
    lemma_unique(keys(writes));
    assert forall|i: int| 0 <= i < table.len() implies table[i] == merged(writes)[i] by {
        lemma_last_write_at(table, i);
    }
}

/// `merged` has each key once, and holds for it what was written last.
pub proof fn lemma_merged<K, V>(writes: Seq<(K, V)>)
    ensures
        keys(merged(writes)) == unique(keys(writes)),
        keys(merged(writes)).no_duplicates(),
        forall|k: K| last_write(merged(writes), k) == last_write(writes, k),
        as_map(merged(writes)) == as_map(writes),
{
    let m = merged(writes);
    let ks = unique(keys(writes));
    lemma_unique(keys(writes));
    assert forall|k: K| last_write(m, k) == last_write(writes, k) by {
        lemma_last_write_is_some(m, k);
        lemma_last_write_is_some(writes, k);
        if ks.contains(k) {
            let i = choose|i: int| 0 <= i < ks.len() && ks[i] == k;
            lemma_last_write_at(m, i);
        }
    }
}

} // verus!
