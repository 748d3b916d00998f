//! What holds of every map, whatever was put into it.

use crate::btree::runs::put_all;
use crate::btree::map::BTreeMap;
use crate::btree::order::{lemma_order, lt, total_order};
use vstd::prelude::*;

verus! {

/// The value of the last of `pairs` that has the key `k`.
pub open spec fn last_value<K, V>(pairs: Seq<(K, V)>, k: K) -> Option<V>
    decreases pairs.len(),
{
    if pairs.len() == 0 {
        None
    } else if pairs.last().0 == k {
        Some(pairs.last().1)
    } else {
        last_value(pairs.drop_last(), k)
    }
}

/// The last write wins: after `pairs` were put into a map one by one, a key
/// has the value of the last pair with that key, and a key that no pair has
/// is as it was.
pub proof fn lemma_last_write_wins<K, V>(map: Map<K, V>, pairs: Seq<(K, V)>, k: K)
    ensures
        put_all(map, pairs).get(k) == match last_value(pairs, k) {
            Some(v) => Some(v),
            None => map.get(k),
        },
    decreases pairs.len(),
{
    if pairs.len() > 0 {
        lemma_last_write_wins(map, pairs.drop_last(), k);
    }
}

/// Putting one more pair after `pairs` is putting it into the map that
/// holds `pairs`: a batch is the same as its pairs one by one.
pub proof fn lemma_put_all_step<K, V>(map: Map<K, V>, pairs: Seq<(K, V)>, k: K, v: V)
    ensures
        put_all(map, pairs.push((k, v))) == put_all(map, pairs).insert(k, v),
{
    assert(pairs.push((k, v)).drop_last() =~= pairs);
}

/// Looking up many keys at once gives for each key, at its place, what
/// looking up that key alone gives.
pub proof fn lemma_found_each_is_found<K: Ord, V>(map: BTreeMap<K, V>, keys: Seq<K>)
    ensures
        map.found_each(keys).len() == keys.len(),
        forall|i: int|
            0 <= i < keys.len() ==> (#[trigger] map.found_each(keys)[i]) == map.found(keys[i]),
{
}

/// Two lists whose keys ascend and that hold the same pairs are one list.
pub proof fn lemma_ascending_lists_equal<K: Ord, V>(a: Seq<(K, V)>, b: Seq<(K, V)>)
    requires
        total_order::<K>(),
        forall|i: int, j: int| 0 <= i < j < a.len() ==> lt(a[i].0, a[j].0),
        forall|i: int, j: int| 0 <= i < j < b.len() ==> lt(b[i].0, b[j].0),
        forall|i: int| 0 <= i < a.len() ==> b.contains(#[trigger] a[i]),
        forall|i: int| 0 <= i < b.len() ==> a.contains(#[trigger] b[i]),
    ensures
        a == b,
    decreases a.len(),
{
    lemma_order::<K>();
    if a.len() == 0 {
        if b.len() > 0 {
            assert(a.contains(b[0]));
        }
        assert(a =~= b);
    } else {
        let x = a.last();
        assert(b.contains(x));
        let j = choose|j: int| 0 <= j < b.len() && b[j] == x;
        let y = b.last();
        assert(a.contains(y));
        let i = choose|i: int| 0 <= i < a.len() && a[i] == y;
        if i < a.len() - 1 {
            assert(lt(a[i].0, x.0));
        }
        if j < b.len() - 1 {
            assert(lt(b[j].0, y.0));
        }
        assert(x == y);
        let a2 = a.drop_last();
        let b2 = b.drop_last();
        assert forall|i: int| 0 <= i < a2.len() implies b2.contains(#[trigger] a2[i]) by {
            assert(a2[i] == a[i]);
            assert(b.contains(a[i]));
            let t = choose|t: int| 0 <= t < b.len() && b[t] == a[i];
            assert(lt(a[i].0, x.0));
            assert(t < b.len() - 1);
            assert(b2[t] == a2[i]);
        }
        assert forall|i: int| 0 <= i < b2.len() implies a2.contains(#[trigger] b2[i]) by {
            assert(b2[i] == b[i]);
            assert(a.contains(b[i]));
            let t = choose|t: int| 0 <= t < a.len() && a[t] == b[i];
            assert(lt(b[i].0, y.0));
            assert(t < a.len() - 1);
            assert(a2[t] == b2[i]);
        }
        lemma_ascending_lists_equal(a2, b2);
        assert(a =~= a2.push(x));
        assert(b =~= b2.push(y));
    }
}

/// What a map holds decides what it lists and how many: two maps with one
/// content have the same entries in the same order, and the same length,
/// however each was built.
pub proof fn lemma_content_decides<K: Ord, V>(a: BTreeMap<K, V>, b: BTreeMap<K, V>)
    requires
        a.wf(),
        b.wf(),
        a@ == b@,
    ensures
        a.entries() == b.entries(),
        a.length == b.length,
{
    a.lemma_entries();
    b.lemma_entries();
    let ea = a.entries();
    let eb = b.entries();
    assert forall|i: int| 0 <= i < ea.len() implies eb.contains(#[trigger] ea[i]) by {
        assert(a@.contains_pair(ea[i].0, ea[i].1));
        assert(b@.contains_key(ea[i].0));
        let j = choose|j: int| 0 <= j < eb.len() && (#[trigger] eb[j]).0 == ea[i].0;
        assert(b@.contains_pair(eb[j].0, eb[j].1));
        assert(eb[j] == ea[i]);
    }
    assert forall|i: int| 0 <= i < eb.len() implies ea.contains(#[trigger] eb[i]) by {
        assert(b@.contains_pair(eb[i].0, eb[i].1));
        assert(a@.contains_key(eb[i].0));
        let j = choose|j: int| 0 <= j < ea.len() && (#[trigger] ea[j]).0 == eb[i].0;
        assert(a@.contains_pair(ea[j].0, ea[j].1));
        assert(ea[j] == eb[i]);
    }
    lemma_ascending_lists_equal(ea, eb);
}

} // verus!
