//! Association lists as maps, and counting in sequences: the mathematics that
//! the index and the cache share.

use vstd::prelude::*;

verus! {

/// The map that pairs `keys[i]` with `values[i]`. Meant for key sequences
/// without duplicates.
pub open spec fn as_map<K, V>(keys: Seq<K>, values: Seq<V>) -> Map<K, V> {
    Map::new(|k: K| keys.contains(k), |k: K| values[keys.index_of(k)])
}

/// With distinct keys, the map holds at `keys[i]` what stands at position `i`.
pub proof fn lemma_as_map_at<K, V>(keys: Seq<K>, values: Seq<V>, i: int)
    requires
        keys.no_duplicates(),
        0 <= i < keys.len(),
    ensures
        as_map(keys, values).contains_key(keys[i]),
        as_map(keys, values)[keys[i]] == values[i],
{
    assert(keys.contains(keys[i]));
    let j = keys.index_of(keys[i]);
    assert(0 <= j < keys.len() && keys[j] == keys[i]);
}

/// Appending a fresh key inserts it into the map.
pub proof fn lemma_as_map_push<K, V>(keys: Seq<K>, values: Seq<V>, k: K, v: V)
    requires
        keys.no_duplicates(),
        keys.len() == values.len(),
        !keys.contains(k),
    ensures
        keys.push(k).no_duplicates(),
        as_map(keys.push(k), values.push(v)) == as_map(keys, values).insert(k, v),
{
    let keys2 = keys.push(k);
    let values2 = values.push(v);
    assert(keys2.no_duplicates()) by {
        assert forall|i: int, j: int|
            0 <= i < keys2.len() && 0 <= j < keys2.len() && i != j implies keys2[i] != keys2[j] by {
            if i < keys.len() && j < keys.len() {
                assert(keys[i] != keys[j]);
            } else if i < keys.len() {
                assert(keys.contains(keys[i]));
            } else {
                assert(keys.contains(keys[j]));
            }
        }
    }
    let before = as_map(keys, values);
    let after = as_map(keys2, values2);
    assert forall|x: K| after.contains_key(x) <==> before.insert(k, v).contains_key(x) by {
        if keys2.contains(x) {
            let i = keys2.index_of(x);
            if i < keys.len() {
                assert(keys[i] == x);
            }
        }
        if keys.contains(x) {
            let i = keys.index_of(x);
            assert(keys2[i] == x);
        }
        if x == k {
            assert(keys2[keys.len() as int] == k);
        }
    }
    assert forall|x: K| after.contains_key(x) implies after[x] == before.insert(k, v)[x] by {
        let i = keys2.index_of(x);
        lemma_as_map_at(keys2, values2, i);
        if i < keys.len() {
            assert(keys[i] == x);
            lemma_as_map_at(keys, values, i);
        }
    }
    assert(after =~= before.insert(k, v));
}

/// Replacing the value at position `i` replaces it in the map.
pub proof fn lemma_as_map_update<K, V>(keys: Seq<K>, values: Seq<V>, i: int, v: V)
    requires
        keys.no_duplicates(),
        keys.len() == values.len(),
        0 <= i < keys.len(),
    ensures
        as_map(keys, values.update(i, v)) == as_map(keys, values).insert(keys[i], v),
{
    let before = as_map(keys, values);
    let after = as_map(keys, values.update(i, v));
    assert(keys.contains(keys[i]));
    assert forall|x: K| after.contains_key(x) implies after[x] == before.insert(keys[i], v)[x] by {
        let j = keys.index_of(x);
        lemma_as_map_at(keys, values.update(i, v), j);
        lemma_as_map_at(keys, values, j);
    }
    assert(after =~= before.insert(keys[i], v));
}

/// Taking position `i` out of the list removes its key from the map.
pub proof fn lemma_as_map_remove<K, V>(keys: Seq<K>, values: Seq<V>, i: int)
    requires
        keys.no_duplicates(),
        keys.len() == values.len(),
        0 <= i < keys.len(),
    ensures
        keys.remove(i).no_duplicates(),
        !keys.remove(i).contains(keys[i]),
        as_map(keys.remove(i), values.remove(i)) == as_map(keys, values).remove(keys[i]),
{
    let keys2 = keys.remove(i);
    let values2 = values.remove(i);
    assert forall|a: int| 0 <= a < keys2.len() implies keys2[a] == keys[if a < i {
        a
    } else {
        a + 1
    }] && values2[a] == values[if a < i {
        a
    } else {
        a + 1
    }] by {}
    assert(keys2.no_duplicates());
    assert(!keys2.contains(keys[i])) by {
        if keys2.contains(keys[i]) {
            let a = keys2.index_of(keys[i]);
            assert(keys2[a] == keys[i]);
        }
    }
    let before = as_map(keys, values);
    let after = as_map(keys2, values2);
    assert forall|x: K| after.contains_key(x) <==> before.remove(keys[i]).contains_key(x) by {
        if keys2.contains(x) {
            let a = keys2.index_of(x);
            assert(keys[if a < i {
                a
            } else {
                a + 1
            }] == x);
        }
        if keys.contains(x) && x != keys[i] {
            let b = keys.index_of(x);
            assert(keys2[if b < i {
                b
            } else {
                b - 1
            }] == x);
        }
    }
    assert forall|x: K| after.contains_key(x) implies after[x] == before.remove(keys[i])[x] by {
        let a = keys2.index_of(x);
        lemma_as_map_at(keys2, values2, a);
        lemma_as_map_at(keys, values, if a < i {
            a
        } else {
            a + 1
        });
    }
    assert(after =~= before.remove(keys[i]));
}

/// How often `x` occurs in `s`.
pub open spec fn count_of<A>(s: Seq<A>, x: A) -> nat
    decreases s.len(),
{
    if s.len() == 0 {
        0
    } else {
        count_of(s.drop_last(), x) + if s.last() == x {
            1nat
        } else {
            0nat
        }
    }
}

/// One more element is one more occurrence of that element, and of no other.
pub proof fn lemma_count_push<A>(s: Seq<A>, y: A, x: A)
    ensures
        count_of(s.push(y), x) == count_of(s, x) + if y == x {
            1nat
        } else {
            0nat
        },
{
    assert(s.push(y).drop_last() =~= s);
}

/// An element occurs at least once exactly when the sequence contains it, and
/// never more often than the sequence is long.
pub proof fn lemma_count_contains<A>(s: Seq<A>, x: A)
    ensures
        count_of(s, x) > 0 <==> s.contains(x),
        count_of(s, x) <= s.len(),
    decreases s.len(),
{
    if s.len() > 0 {
        lemma_count_contains(s.drop_last(), x);
        if s.drop_last().contains(x) {
            let i = s.drop_last().index_of(x);
            assert(s[i] == x);
        }
        if s.contains(x) && s.last() != x {
            let i = s.index_of(x);
            assert(s.drop_last()[i] == x);
        }
    }
}

/// How many elements of `s` satisfy `pred`.
pub open spec fn count_if<A>(s: Seq<A>, pred: spec_fn(A) -> bool) -> nat
    decreases s.len(),
{
    if s.len() == 0 {
        0
    } else {
        count_if(s.drop_last(), pred) + if pred(s.last()) {
            1nat
        } else {
            0nat
        }
    }
}

/// Appending an element counts it if it satisfies the predicate.
pub proof fn lemma_count_if_push<A>(s: Seq<A>, x: A, pred: spec_fn(A) -> bool)
    ensures
        count_if(s.push(x), pred) == count_if(s, pred) + if pred(x) {
            1nat
        } else {
            0nat
        },
{
    assert(s.push(x).drop_last() =~= s);
}

/// Replacing an element changes the count by what the old and the new
/// element contribute.
pub proof fn lemma_count_if_update<A>(s: Seq<A>, i: int, x: A, pred: spec_fn(A) -> bool)
    requires
        0 <= i < s.len(),
    ensures
        count_if(s.update(i, x), pred) + (if pred(s[i]) {
            1nat
        } else {
            0nat
        }) == count_if(s, pred) + if pred(x) {
            1nat
        } else {
            0nat
        },
    decreases s.len(),
{
    if i == s.len() - 1 {
        assert(s.update(i, x).drop_last() =~= s.drop_last());
    } else {
        lemma_count_if_update(s.drop_last(), i, x, pred);
        assert(s.update(i, x).drop_last() =~= s.drop_last().update(i, x));
    }
}

/// Taking an element out lowers the count by what it contributed.
pub proof fn lemma_count_if_remove<A>(s: Seq<A>, i: int, pred: spec_fn(A) -> bool)
    requires
        0 <= i < s.len(),
    ensures
        count_if(s.remove(i), pred) + (if pred(s[i]) {
            1nat
        } else {
            0nat
        }) == count_if(s, pred),
    decreases s.len(),
{
    if i == s.len() - 1 {
        assert(s.remove(i) =~= s.drop_last());
    } else {
        lemma_count_if_remove(s.drop_last(), i, pred);
        assert(s.remove(i).drop_last() =~= s.drop_last().remove(i));
        assert(s.remove(i).last() == s.last());
    }
}

/// No more elements satisfy a predicate than there are elements; none does
/// exactly when the count is zero.
pub proof fn lemma_count_if_bounds<A>(s: Seq<A>, pred: spec_fn(A) -> bool)
    ensures
        count_if(s, pred) <= s.len(),
        count_if(s, pred) == 0 <==> forall|i: int| 0 <= i < s.len() ==> !pred(#[trigger] s[i]),
    decreases s.len(),
{
    if s.len() > 0 {
        lemma_count_if_bounds(s.drop_last(), pred);
        if count_if(s, pred) == 0 {
            assert forall|i: int| 0 <= i < s.len() implies !pred(#[trigger] s[i]) by {
                if i < s.len() - 1 {
                    assert(s.drop_last()[i] == s[i]);
                }
            }
        } else if forall|i: int| 0 <= i < s.len() ==> !pred(#[trigger] s[i]) {
            assert forall|i: int| 0 <= i < s.drop_last().len() implies !pred(
                #[trigger] s.drop_last()[i],
            ) by {
                assert(s.drop_last()[i] == s[i]);
            }
            assert(!pred(s[s.len() - 1]));
        }
    }
}

/// The keys of a map whose values satisfy `pred`.
pub open spec fn keys_where<K, V>(m: Map<K, V>, pred: spec_fn(V) -> bool) -> Set<K> {
    Set::new(|k: K| m.contains_key(k) && pred(m[k]))
}

/// With distinct keys, as many values of the list satisfy a predicate as the
/// map has keys whose values satisfy it.
pub proof fn lemma_count_if_keys<K, V>(keys: Seq<K>, values: Seq<V>, pred: spec_fn(V) -> bool)
    requires
        keys.no_duplicates(),
        keys.len() == values.len(),
    ensures
        keys_where(as_map(keys, values), pred).finite(),
        keys_where(as_map(keys, values), pred).len() == count_if(values, pred),
    decreases keys.len(),
{
    let m = as_map(keys, values);
    if keys.len() == 0 {
        assert(keys_where(m, pred) =~= Set::<K>::empty());
    } else {
        let k = keys.last();
        let v = values.last();
        let head = keys.drop_last();
        let rest = values.drop_last();
        assert(!head.contains(k)) by {
            if head.contains(k) {
                let i = head.index_of(k);
                assert(keys[i] == k);
            }
        }
        lemma_count_if_keys(head, rest, pred);
        lemma_as_map_push(head, rest, k, v);
        assert(head.push(k) =~= keys);
        assert(rest.push(v) =~= values);
        let before = as_map(head, rest);
        assert(m == before.insert(k, v));
        if pred(v) {
            assert(keys_where(m, pred) =~= keys_where(before, pred).insert(k));
        } else {
            assert(keys_where(m, pred) =~= keys_where(before, pred));
        }
    }
}

/// With distinct keys, the map has as many keys as the list is long.
pub proof fn lemma_dom_len<K, V>(keys: Seq<K>, values: Seq<V>)
    requires
        keys.no_duplicates(),
    ensures
        as_map(keys, values).dom().finite(),
        as_map(keys, values).dom().len() == keys.len(),
{
    assert(as_map(keys, values).dom() =~= keys.to_set());
    keys.unique_seq_to_set();
}

} // verus!
