//! A keyed mapping viewed through a vector of `(key, value)` pairs with
//! distinct keys: the spec-level `Map` it denotes, and how pushing,
//! updating and removing entries act on that map.

use vstd::prelude::*;

verus! {

/// No two entries share a key.
pub open spec fn uniq_keys<K, V>(s: Seq<(K, V)>) -> bool {
    forall|i: int, j: int| 0 <= i < j < s.len() ==> (#[trigger] s[i]).0 != (#[trigger] s[j]).0
}

/// The mapping denoted by an association sequence; later entries win.
pub open spec fn amap<K, V>(s: Seq<(K, V)>) -> Map<K, V>
    decreases s.len(),
{
    if s.len() == 0 {
        Map::empty()
    } else {
        amap(s.drop_last()).insert(s.last().0, s.last().1)
    }
}

/// A key is in the mapping exactly when some entry carries it.
pub proof fn lemma_amap_contains<K, V>(s: Seq<(K, V)>, k: K)
    ensures
        amap(s).contains_key(k) <==> exists|i: int| 0 <= i < s.len() && (#[trigger] s[i]).0 == k,
    decreases s.len(),
{
    if s.len() > 0 {
        lemma_amap_contains(s.drop_last(), k);
        if s.last().0 == k {
            assert(s[s.len() - 1].0 == k);
        }
        if exists|i: int| 0 <= i < s.len() && (#[trigger] s[i]).0 == k {
            let i = choose|i: int| 0 <= i < s.len() && (#[trigger] s[i]).0 == k;
            if i < s.len() - 1 {
                assert(s.drop_last()[i].0 == k);
            }
        }
    }
}

/// With distinct keys, each entry is what the mapping holds for its key.
pub proof fn lemma_amap_index<K, V>(s: Seq<(K, V)>, i: int)
    requires
        uniq_keys(s),
        0 <= i < s.len(),
    ensures
        amap(s).contains_key(s[i].0),
        amap(s)[s[i].0] == s[i].1,
    decreases s.len(),
{
    if i == s.len() - 1 {
    } else {
        assert(uniq_keys(s.drop_last())) by {
            assert(forall|p: int, q: int| 0 <= p < q < s.len() - 1 ==>
                (#[trigger] s.drop_last()[p]).0 != (#[trigger] s.drop_last()[q]).0) by {
                assert(forall|p: int| 0 <= p < s.len() - 1 ==> s.drop_last()[p] == s[p]);
            }
        }
        lemma_amap_index(s.drop_last(), i);
        assert(s[i].0 != s.last().0);
    }
}

/// Keys of the tail stay distinct.
pub proof fn lemma_uniq_drop_last<K, V>(s: Seq<(K, V)>)
    requires
        uniq_keys(s),
        s.len() > 0,
    ensures
        uniq_keys(s.drop_last()),
{
    assert(forall|p: int| 0 <= p < s.len() - 1 ==> s.drop_last()[p] == s[p]);
}

/// Appending a fresh key inserts it into the mapping and keeps keys
/// distinct.
pub proof fn lemma_amap_push<K, V>(s: Seq<(K, V)>, k: K, v: V)
    requires
        uniq_keys(s),
        !amap(s).contains_key(k),
    ensures
        amap(s.push((k, v))) == amap(s).insert(k, v),
        uniq_keys(s.push((k, v))),
{
    let t = s.push((k, v));
    assert(t.drop_last() =~= s);
    assert(t.last() == (k, v));
    lemma_amap_contains(s, k);
    assert(forall|i: int, j: int| 0 <= i < j < t.len() ==> (#[trigger] t[i]).0 != (#[trigger] t[j]).0) by {
        assert(forall|i: int| 0 <= i < s.len() ==> t[i] == s[i]);
        assert(forall|i: int| 0 <= i < s.len() ==> s[i].0 != k) by {
            lemma_amap_contains(s, k);
        }
    }
}

/// Overwriting the value at position `i` updates the mapping at that
/// entry's key.
pub proof fn lemma_amap_update<K, V>(s: Seq<(K, V)>, i: int, v: V)
    requires
        uniq_keys(s),
        0 <= i < s.len(),
    ensures
        amap(s.update(i, (s[i].0, v))) == amap(s).insert(s[i].0, v),
        uniq_keys(s.update(i, (s[i].0, v))),
    decreases s.len(),
{
    let k = s[i].0;
    let t = s.update(i, (k, v));
    assert(uniq_keys(t)) by {
        assert(forall|p: int| 0 <= p < s.len() ==> (#[trigger] t[p]).0 == s[p].0);
    }
    if i == s.len() - 1 {
        assert(t.drop_last() =~= s.drop_last());
        assert(amap(t) == amap(s.drop_last()).insert(k, v));
        assert(amap(s.drop_last()).insert(k, s[i].1).insert(k, v)
            =~= amap(s.drop_last()).insert(k, v));
    } else {
        lemma_uniq_drop_last(s);
        lemma_amap_update(s.drop_last(), i, v);
        assert(t.drop_last() =~= s.drop_last().update(i, (k, v)));
        assert(t.last() == s.last());
        assert(k != s.last().0);
        assert(amap(t) == amap(s.drop_last()).insert(k, v).insert(s.last().0, s.last().1));
        assert(amap(s.drop_last()).insert(k, v).insert(s.last().0, s.last().1)
            =~= amap(s.drop_last()).insert(s.last().0, s.last().1).insert(k, v));
    }
}

/// Removing the entry at position `i` removes that entry's key from the
/// mapping.
pub proof fn lemma_amap_remove<K, V>(s: Seq<(K, V)>, i: int)
    requires
        uniq_keys(s),
        0 <= i < s.len(),
    ensures
        amap(s.remove(i)) == amap(s).remove(s[i].0),
        uniq_keys(s.remove(i)),
    decreases s.len(),
{
    let k = s[i].0;
    let t = s.remove(i);
    assert(uniq_keys(t)) by {
        assert(forall|p: int| 0 <= p < t.len() ==>
            (#[trigger] t[p]) == (if p < i { s[p] } else { s[p + 1] }));
    }
    lemma_uniq_drop_last(s);
    if i == s.len() - 1 {
        assert(t =~= s.drop_last());
        lemma_amap_contains(s.drop_last(), k);
        assert(!amap(s.drop_last()).contains_key(k)) by {
            assert(forall|p: int| 0 <= p < s.len() - 1 ==> (#[trigger] s.drop_last()[p]).0 != k);
        }
        assert(amap(s).remove(k) =~= amap(s.drop_last()));
    } else {
        lemma_amap_remove(s.drop_last(), i);
        assert(t.drop_last() =~= s.drop_last().remove(i));
        assert(t.last() == s.last());
        assert(k != s.last().0);
        assert(amap(t) == amap(s.drop_last()).remove(k).insert(s.last().0, s.last().1));
        assert(amap(s.drop_last()).remove(k).insert(s.last().0, s.last().1)
            =~= amap(s.drop_last()).insert(s.last().0, s.last().1).remove(k));
    }
}

} // verus!
