//! Association lists: a sequence of `(key, value)` pairs whose keys are
//! distinct, read as the map it stands for.
//!
//! The cookie jar and the connection pool keep their partitions this way, in
//! the order the partitions were first used.
use vstd::prelude::*;

verus! {

/// No key occurs twice.
pub open spec fn distinct_keys<K, V>(s: Seq<(K, V)>) -> bool {
    forall|i: int, j: int| 0 <= i < j < s.len() ==> #[trigger] s[i].0 != #[trigger] s[j].0
}

/// The map a list of pairs stands for; a later pair wins over an earlier one.
pub open spec fn map_of<K, V>(s: Seq<(K, V)>) -> Map<K, V>
    decreases s.len(),
{
    if s.len() == 0 {
        Map::empty()
    } else {
        map_of(s.drop_last()).insert(s.last().0, s.last().1)
    }
}

/// A key is in the map exactly when some pair carries it.
pub proof fn lemma_map_of_dom<K, V>(s: Seq<(K, V)>, k: K)
    ensures
        map_of(s).contains_key(k) <==> exists|i: int| 0 <= i < s.len() && s[i].0 == k,
    decreases s.len(),
{
    if s.len() > 0 {
        let d = s.drop_last();
        lemma_map_of_dom(d, k);
        if map_of(d).contains_key(k) {
            let i = choose|i: int| 0 <= i < d.len() && d[i].0 == k;
            assert(s[i].0 == k);
        }
        if exists|i: int| 0 <= i < s.len() && s[i].0 == k {
            let i = choose|i: int| 0 <= i < s.len() && s[i].0 == k;
            if i < s.len() - 1 {
                assert(d[i].0 == k);
            }
        }
    }
}

/// The map is finite, with one entry per pair when the keys are distinct.
pub proof fn lemma_map_of_len<K, V>(s: Seq<(K, V)>)
    ensures
        map_of(s).dom().finite(),
        distinct_keys(s) ==> map_of(s).dom().len() == s.len(),
    decreases s.len(),
{
    if s.len() > 0 {
        let d = s.drop_last();
        lemma_map_of_len(d);
        if distinct_keys(s) {
            assert(distinct_keys(d)) by {
                assert forall|i: int, j: int| 0 <= i < j < d.len() implies #[trigger] d[i].0 != #[trigger] d[j].0 by {
                    assert(s[i].0 != s[j].0);
                }
            }
            lemma_map_of_dom(d, s.last().0);
            if map_of(d).contains_key(s.last().0) {
                let i = choose|i: int| 0 <= i < d.len() && d[i].0 == s.last().0;
                assert(s[i].0 == s[s.len() - 1].0);
            }
        }
    }
}

/// With distinct keys, each pair's value is what the map holds for its key.
pub proof fn lemma_map_of_at<K, V>(s: Seq<(K, V)>, i: int)
    requires
        distinct_keys(s),
        0 <= i < s.len(),
    ensures
        map_of(s).contains_key(s[i].0),
        map_of(s)[s[i].0] == s[i].1,
    decreases s.len(),
{
    if i < s.len() - 1 {
        let d = s.drop_last();
        assert(distinct_keys(d)) by {
            assert forall|a: int, b: int| 0 <= a < b < d.len() implies #[trigger] d[a].0 != #[trigger] d[b].0 by {
                assert(s[a].0 != s[b].0);
            }
        }
        lemma_map_of_at(d, i);
        assert(d[i] == s[i]);
        assert(s[i].0 != s[s.len() - 1].0);
    }
}

/// Replacing one pair's value replaces that key's value in the map.
pub proof fn lemma_map_of_update<K, V>(s: Seq<(K, V)>, i: int, v: V)
    requires
        distinct_keys(s),
        0 <= i < s.len(),
    ensures
        distinct_keys(s.update(i, (s[i].0, v))),
        map_of(s.update(i, (s[i].0, v))) == map_of(s).insert(s[i].0, v),
    decreases s.len(),
{
    let t = s.update(i, (s[i].0, v));
    assert(distinct_keys(t)) by {
        assert forall|a: int, b: int| 0 <= a < b < t.len() implies #[trigger] t[a].0 != #[trigger] t[b].0 by {
            assert(s[a].0 != s[b].0);
        }
    }
    let d = s.drop_last();
    if i == s.len() - 1 {
        assert(t.drop_last() =~= d);
        assert(map_of(t) =~= map_of(s).insert(s[i].0, v));
    } else {
        assert(distinct_keys(d)) by {
            assert forall|a: int, b: int| 0 <= a < b < d.len() implies #[trigger] d[a].0 != #[trigger] d[b].0 by {
                assert(s[a].0 != s[b].0);
            }
        }
        lemma_map_of_update(d, i, v);
        assert(t.drop_last() =~= d.update(i, (d[i].0, v)));
        assert(s[i].0 != s[s.len() - 1].0);
        assert(map_of(t) =~= map_of(s).insert(s[i].0, v));
    }
}

/// Removing one pair removes its key from the map.
pub proof fn lemma_map_of_remove<K, V>(s: Seq<(K, V)>, i: int)
    requires
        distinct_keys(s),
        0 <= i < s.len(),
    ensures
        distinct_keys(s.remove(i)),
        map_of(s.remove(i)) == map_of(s).remove(s[i].0),
    decreases s.len(),
{
    let t = s.remove(i);
    assert(distinct_keys(t)) by {
        assert forall|a: int, b: int| 0 <= a < b < t.len() implies #[trigger] t[a].0 != #[trigger] t[b].0 by {
            let a2 = if a < i { a } else { a + 1 };
            let b2 = if b < i { b } else { b + 1 };
            assert(t[a] == s[a2]);
            assert(t[b] == s[b2]);
            assert(s[a2].0 != s[b2].0);
        }
    }
    let d = s.drop_last();
    assert(distinct_keys(d)) by {
        assert forall|a: int, b: int| 0 <= a < b < d.len() implies #[trigger] d[a].0 != #[trigger] d[b].0 by {
            assert(s[a].0 != s[b].0);
        }
    }
    if i == s.len() - 1 {
        assert(t =~= d);
        lemma_map_of_dom(d, s[i].0);
        if map_of(d).contains_key(s[i].0) {
            let j = choose|j: int| 0 <= j < d.len() && d[j].0 == s[i].0;
            assert(s[j].0 != s[i].0);
        }
        assert(map_of(t) =~= map_of(s).remove(s[i].0));
    } else {
        lemma_map_of_remove(d, i);
        assert(t.drop_last() =~= d.remove(i));
        assert(t.last() == s.last());
        assert(s[i].0 != s[s.len() - 1].0);
        assert(map_of(t) =~= map_of(s).remove(s[i].0));
    }
}

/// Appending a pair for a new key adds it to the map.
pub proof fn lemma_map_of_push<K, V>(s: Seq<(K, V)>, k: K, v: V)
    requires
        distinct_keys(s),
        !map_of(s).contains_key(k),
    ensures
        distinct_keys(s.push((k, v))),
        map_of(s.push((k, v))) == map_of(s).insert(k, v),
{
    let t = s.push((k, v));
    assert(t.drop_last() =~= s);
    lemma_map_of_dom(s, k);
    assert(distinct_keys(t)) by {
        assert forall|a: int, b: int| 0 <= a < b < t.len() implies #[trigger] t[a].0 != #[trigger] t[b].0 by {
            if b == s.len() {
                assert(t[a] == s[a]);
            } else {
                assert(s[a].0 != s[b].0);
            }
        }
    }
}

/// The lengths of all the values, added up.
pub open spec fn total_len<K, V>(s: Seq<(K, Seq<V>)>) -> nat
    decreases s.len(),
{
    if s.len() == 0 {
        0
    } else {
        total_len(s.drop_last()) + s.last().1.len()
    }
}

/// Replacing one value changes the total by the difference in length.
pub proof fn lemma_total_update<K, V>(s: Seq<(K, Seq<V>)>, i: int, v: Seq<V>)
    requires
        0 <= i < s.len(),
    ensures
        total_len(s.update(i, (s[i].0, v))) == total_len(s) - s[i].1.len() + v.len(),
    decreases s.len(),
{
    let t = s.update(i, (s[i].0, v));
    if i == s.len() - 1 {
        assert(t.drop_last() =~= s.drop_last());
    } else {
        lemma_total_update(s.drop_last(), i, v);
        assert(t.drop_last() =~= s.drop_last().update(i, (s[i].0, v)));
    }
}

/// Removing one pair takes its value's length off the total.
pub proof fn lemma_total_remove<K, V>(s: Seq<(K, Seq<V>)>, i: int)
    requires
        0 <= i < s.len(),
    ensures
        total_len(s.remove(i)) == total_len(s) - s[i].1.len(),
    decreases s.len(),
{
    let t = s.remove(i);
    if i == s.len() - 1 {
        assert(t =~= s.drop_last());
    } else {
        lemma_total_remove(s.drop_last(), i);
        assert(t.drop_last() =~= s.drop_last().remove(i));
        assert(t.last() == s.last());
    }
}

/// Every value is part of the total.
pub proof fn lemma_total_at_least<K, V>(s: Seq<(K, Seq<V>)>, i: int)
    requires
        0 <= i < s.len(),
    ensures
        total_len(s) >= s[i].1.len(),
    decreases s.len(),
{
    if i < s.len() - 1 {
        lemma_total_at_least(s.drop_last(), i);
    }
}


/// The total of two lists one after the other is the sum of their totals.
pub proof fn lemma_total_concat<K, V>(a: Seq<(K, Seq<V>)>, b: Seq<(K, Seq<V>)>)
    ensures
        total_len(a + b) == total_len(a) + total_len(b),
    decreases b.len(),
{
    if b.len() > 0 {
        lemma_total_concat(a, b.drop_last());
        assert((a + b).drop_last() =~= a + b.drop_last());
    } else {
        assert(a + b =~= a);
    }
}

} // verus!
