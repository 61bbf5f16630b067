//! Maps that are held as lists of pairs.

use vstd::prelude::*;

verus! {

/// What a list of pairs maps; of two with one key the later one counts.
pub open spec fn map_of<K, V>(pairs: Seq<(K, V)>) -> Map<K, V>
    decreases pairs.len(),
{
    if pairs.len() == 0 {
        Map::empty()
    } else {
        map_of(pairs.drop_last()).insert(pairs.last().0, pairs.last().1)
    }
}

/// Whether each key is there once.
pub open spec fn keys_unique<K, V>(pairs: Seq<(K, V)>) -> bool {
    forall|i: int, j: int| 0 <= i < j < pairs.len() ==> (#[trigger] pairs[i]).0 != (#[trigger] pairs[j]).0
}

/// Whether a key is in the list.
pub open spec fn has_key<K, V>(pairs: Seq<(K, V)>, key: K) -> bool {
    exists|i: int| 0 <= i < pairs.len() && (#[trigger] pairs[i]).0 == key
}

pub(crate) proof fn lemma_map_of<K, V>(pairs: Seq<(K, V)>)
    requires
        keys_unique(pairs),
    ensures
        forall|i: int| 0 <= i < pairs.len() ==> map_of(pairs).contains_pair((#[trigger] pairs[i]).0, pairs[i].1),
        forall|key: K| #[trigger] map_of(pairs).dom().contains(key) == has_key(pairs, key),
    decreases pairs.len(),
{
    if pairs.len() > 0 {
        let init = pairs.drop_last();
        let last = pairs.len() - 1;
        assert(keys_unique(init)) by {
            assert forall|i: int, j: int| 0 <= i < j < init.len() implies (#[trigger] init[i]).0 != (
            #[trigger] init[j]).0 by {
                assert(pairs[i].0 != pairs[j].0);
            }
        }
        lemma_map_of(init);
        assert forall|i: int| 0 <= i < pairs.len() implies map_of(pairs).contains_pair(
            (#[trigger] pairs[i]).0,
            pairs[i].1,
        ) by {
            if i < last {
                assert(init[i] == pairs[i]);
                assert(pairs[i].0 != pairs[last].0);
            }
        }
        assert forall|key: K| #[trigger] map_of(pairs).dom().contains(key) == has_key(pairs, key) by {
            if key == pairs[last].0 {
            } else {
                assert(map_of(init).dom().contains(key) == has_key(init, key));
                if has_key(init, key) {
                    let i = choose|i: int| 0 <= i < init.len() && (#[trigger] init[i]).0 == key;
                    assert(pairs[i].0 == key);
                }
                if has_key(pairs, key) {
                    let i = choose|i: int| 0 <= i < pairs.len() && (#[trigger] pairs[i]).0 == key;
                    assert(init[i].0 == key);
                }
            }
        }
    }
}

pub(crate) proof fn lemma_map_push<K, V>(pairs: Seq<(K, V)>, key: K, value: V)
    requires
        keys_unique(pairs),
        !has_key(pairs, key),
    ensures
        keys_unique(pairs.push((key, value))),
        map_of(pairs.push((key, value))) == map_of(pairs).insert(key, value),
{
    let now = pairs.push((key, value));
    assert(now.drop_last() =~= pairs);
    assert forall|i: int, j: int| 0 <= i < j < now.len() implies (#[trigger] now[i]).0 != (#[trigger] now[j]).0 by {
        assert(pairs[i].0 == now[i].0);
    }
}

pub(crate) proof fn lemma_map_update<K, V>(pairs: Seq<(K, V)>, at: int, value: V)
    requires
        keys_unique(pairs),
        0 <= at < pairs.len(),
    ensures
        keys_unique(pairs.update(at, (pairs[at].0, value))),
        map_of(pairs.update(at, (pairs[at].0, value))) == map_of(pairs).insert(pairs[at].0, value),
{
    let name = pairs[at].0;
    let now = pairs.update(at, (name, value));
    assert forall|i: int, j: int| 0 <= i < j < now.len() implies (#[trigger] now[i]).0 != (#[trigger] now[j]).0 by {
        assert(pairs[i].0 != pairs[j].0);
    }
    lemma_map_of(pairs);
    lemma_map_of(now);
    let a = map_of(now);
    let b = map_of(pairs).insert(name, value);
    assert forall|k: K|
        #![trigger a.dom().contains(k)]
        #![trigger b.dom().contains(k)]
        #![trigger a[k]]
        a.dom().contains(k) == b.dom().contains(k) && (a.dom().contains(k) ==> a[k] == b[k]) by {
        if a.dom().contains(k) {
            let j = choose|j: int| 0 <= j < now.len() && (#[trigger] now[j]).0 == k;
            assert(a.contains_pair(now[j].0, now[j].1));
            assert(map_of(pairs).contains_pair(pairs[j].0, pairs[j].1));
        }
        if b.dom().contains(k) && k != name {
            let j = choose|j: int| 0 <= j < pairs.len() && (#[trigger] pairs[j]).0 == k;
            assert(a.contains_pair(now[j].0, now[j].1));
        }
        assert(a.contains_pair(now[at].0, now[at].1));
    }
    assert(a =~= b);
}

pub(crate) proof fn lemma_map_remove<K, V>(pairs: Seq<(K, V)>, at: int)
    requires
        keys_unique(pairs),
        0 <= at < pairs.len(),
    ensures
        keys_unique(pairs.remove(at)),
        map_of(pairs.remove(at)) == map_of(pairs).remove(pairs[at].0),
{
    let name = pairs[at].0;
    let now = pairs.remove(at);
    assert forall|i: int, j: int| 0 <= i < j < now.len() implies (#[trigger] now[i]).0 != (#[trigger] now[j]).0 by {
        let x = if i < at { i } else { i + 1 };
        let y = if j < at { j } else { j + 1 };
        assert(pairs[x].0 != pairs[y].0);
    }
    lemma_map_of(pairs);
    lemma_map_of(now);
    let a = map_of(now);
    let b = map_of(pairs).remove(name);
    assert forall|k: K|
        #![trigger a.dom().contains(k)]
        #![trigger b.dom().contains(k)]
        #![trigger a[k]]
        a.dom().contains(k) == b.dom().contains(k) && (a.dom().contains(k) ==> a[k] == b[k]) by {
        if a.dom().contains(k) {
            let j = choose|j: int| 0 <= j < now.len() && (#[trigger] now[j]).0 == k;
            let was = if j < at { j } else { j + 1 };
            assert(now[j] == pairs[was]);
            assert(a.contains_pair(now[j].0, now[j].1));
            assert(map_of(pairs).contains_pair(pairs[was].0, pairs[was].1));
            assert(pairs[was].0 != pairs[at].0);
        }
        if b.dom().contains(k) {
            let j = choose|j: int| 0 <= j < pairs.len() && (#[trigger] pairs[j]).0 == k;
            assert(j != at);
            let is = if j < at { j } else { j - 1 };
            assert(now[is] == pairs[j]);
            assert(a.contains_pair(now[is].0, now[is].1));
            assert(map_of(pairs).contains_pair(pairs[j].0, pairs[j].1));
        }
    }
    assert(a =~= b);
}

/// Of the pairs with one key the last counts, and a key without a pair is not there.
pub proof fn law_last_pair_counts<K, V>(pairs: Seq<(K, V)>, key: K, i: int)
    ensures
        0 <= i < pairs.len() && pairs[i].0 == key && (forall|j: int| i < j < pairs.len() ==> (#[trigger] pairs[j]).0 != key)
            ==> map_of(pairs).contains_pair(key, pairs[i].1),
        (forall|j: int| 0 <= j < pairs.len() ==> (#[trigger] pairs[j]).0 != key) ==> !map_of(pairs).contains_key(key),
    decreases pairs.len(),
{
    if pairs.len() > 0 {
        let init = pairs.drop_last();
        let last = pairs.len() - 1;
        law_last_pair_counts(init, key, i);
        assert forall|j: int| 0 <= j < init.len() implies #[trigger] init[j] == pairs[j] by {}
        assert(pairs[last] == pairs.last());
    }
}

} // verus!
