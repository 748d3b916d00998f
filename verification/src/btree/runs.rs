//! What a batch of pairs does to a map, and what a run over a stretch of
//! the batch does to the subtree that it runs in.

use crate::btree::cursor::sorted;
use crate::btree::lemmas::{
    burst_of, joined, lemma_child_replaced, lemma_child_split, lemma_leaf_burst,
    lemma_leaf_entry_added, lemma_node_split, lemma_rank, lemma_rank_of_edge,
    lemma_value_replaced, put, routed,
};
use crate::btree::node::{among, rank, Node, CAPACITY, MIN_LEN, SPLIT_AT};
use crate::btree::order::{above, below, le, lemma_order, total_order};
use vstd::prelude::*;

verus! {

/// The map that holds each of `pairs`, put in their order, and otherwise
/// what `map` holds.
pub open spec fn put_all<K, V>(map: Map<K, V>, pairs: Seq<(K, V)>) -> Map<K, V>
    decreases pairs.len(),
{
    if pairs.len() == 0 {
        map
    } else {
        put_all(map, pairs.drop_last()).insert(pairs.last().0, pairs.last().1)
    }
}

/// Putting pairs into a map takes no key out of it.
pub proof fn lemma_put_all_keeps<K, V>(map: Map<K, V>, pairs: Seq<(K, V)>, k: K)
    requires
        map.contains_key(k),
    ensures
        put_all(map, pairs).contains_key(k),
    decreases pairs.len(),
{
    if pairs.len() > 0 {
        lemma_put_all_keeps(map, pairs.drop_last(), k);
    }
}

/// What a lookup of `x` gives after the pairs from index `from` up to
/// index `to` were put one by one, where it gave `was` before.
pub open spec fn after<K, V>(was: Option<V>, pairs: Seq<(K, V)>, from: int, to: int, x: K) -> Option<
    V,
>
    decreases to - from,
{
    if to <= from {
        was
    } else {
        put(after(was, pairs, from, to - 1, x), x, pairs[to - 1].0, pairs[to - 1].1)
    }
}

/// The number of pairs from index `from` up to index `to` whose key was new
/// when the pair was put, where `look` is what lookups gave before.
pub open spec fn fresh<K, V>(
    look: spec_fn(K) -> Option<V>,
    pairs: Seq<(K, V)>,
    from: int,
    to: int,
) -> nat
    decreases to - from,
{
    if to <= from {
        0
    } else {
        let k = pairs[to - 1].0;
        let one: nat = if after(look(k), pairs, from, to - 1, k) is None {
            1
        } else {
            0
        };
        fresh(look, pairs, from, to - 1) + one
    }
}

/// Putting a stretch of pairs and then the stretch behind it is putting
/// the two as one.
pub proof fn lemma_after_joins<K, V>(
    was: Option<V>,
    pairs: Seq<(K, V)>,
    a: int,
    b: int,
    c: int,
    x: K,
)
    requires
        a <= b <= c,
    ensures
        after(after(was, pairs, a, b, x), pairs, b, c, x) == after(was, pairs, a, c, x),
    decreases c - b,
{
    if c > b {
        lemma_after_joins(was, pairs, a, b, c - 1, x);
    }
}

/// Putting pairs leaves every key that none of them has as it was.
pub proof fn lemma_after_elsewhere<K, V>(
    was: Option<V>,
    pairs: Seq<(K, V)>,
    a: int,
    b: int,
    x: K,
)
    requires
        forall|j: int| a <= j < b ==> (#[trigger] pairs[j]).0 != x,
    ensures
        after(was, pairs, a, b, x) == was,
    decreases b - a,
{
    if b > a {
        lemma_after_elsewhere(was, pairs, a, b - 1, x);
        assert(pairs[b - 1].0 != x);
    }
}

/// The count of new keys depends on what lookups gave only at the keys of
/// the pairs.
pub proof fn lemma_fresh_agrees<K, V>(
    look1: spec_fn(K) -> Option<V>,
    look2: spec_fn(K) -> Option<V>,
    pairs: Seq<(K, V)>,
    a: int,
    b: int,
)
    requires
        forall|j: int| a <= j < b ==> look1((#[trigger] pairs[j]).0) == look2(pairs[j].0),
    ensures
        fresh(look1, pairs, a, b) == fresh(look2, pairs, a, b),
    decreases b - a,
{
    if b > a {
        lemma_fresh_agrees(look1, look2, pairs, a, b - 1);
        assert(look1(pairs[b - 1].0) == look2(pairs[b - 1].0));
    }
}

/// The new keys of a stretch of pairs and of the stretch behind it add up.
pub proof fn lemma_fresh_joins<K, V>(
    look: spec_fn(K) -> Option<V>,
    mid: spec_fn(K) -> Option<V>,
    pairs: Seq<(K, V)>,
    a: int,
    b: int,
    c: int,
)
    requires
        a <= b <= c,
        forall|j: int|
            b <= j < c ==> mid((#[trigger] pairs[j]).0) == after(
                look(pairs[j].0),
                pairs,
                a,
                b,
                pairs[j].0,
            ),
    ensures
        fresh(look, pairs, a, c) == fresh(look, pairs, a, b) + fresh(mid, pairs, b, c),
    decreases c - b,
{
    if c > b {
        lemma_fresh_joins(look, mid, pairs, a, b, c - 1);
        let k = pairs[c - 1].0;
        assert(mid(k) == after(look(k), pairs, a, b, k));
        lemma_after_joins(look(k), pairs, a, b, c - 1, k);
    }
}

/// The keys of pairs.
pub open spec fn keys_of<K, V>(pairs: Seq<(K, V)>) -> Seq<K> {
    pairs.map_values(|e: (K, V)| e.0)
}

/// `pending` holds the last pairs of `pairs`, the last one first: the pair to
/// put next is at its end.
pub open spec fn stacked<K, V>(pending: Seq<(K, V)>, pairs: Seq<(K, V)>) -> bool {
    &&& pending.len() <= pairs.len()
    &&& forall|j: int| 0 <= j < pending.len() ==> #[trigger] pending[j] == pairs[pairs.len() - 1 - j]
}

/// What lookups under a node give.
pub open spec fn looks<K: Ord, V>(node: Node<K, V>) -> spec_fn(K) -> Option<V> {
    |x: K| node.lookup(x)
}

/// The node `now` is what `start` became by the pairs from `begin` up to `p`,
/// which all belong between `lo` and `hi`, and `len` is what the count
/// `len0` of entries became.
#[verifier::opaque]
pub open spec fn ran<K: Ord, V>(
    start: Node<K, V>,
    now: Node<K, V>,
    lo: Option<K>,
    hi: Option<K>,
    pairs: Seq<(K, V)>,
    begin: int,
    p: int,
    len0: int,
    len: int,
) -> bool {
    &&& 0 <= begin <= p <= pairs.len()
    &&& now.ordered_in(lo, hi)
    &&& now.height() == start.height()
    &&& start.keys.len() <= now.keys.len()
    &&& forall|x: K| #[trigger] now.lookup(x) == after(start.lookup(x), pairs, begin, p, x)
    &&& len == len0 + fresh(looks(start), pairs, begin, p)
    &&& forall|j: int|
        begin <= j < p ==> above(lo, (#[trigger] pairs[j]).0) && below(pairs[j].0, hi)
}

/// The nodes `left` and `right` with the entry `(sk, sv)` between them are
/// what `start` became by the pairs from `begin` up to `p`.
#[verifier::opaque]
pub open spec fn ran_apart<K: Ord, V>(
    start: Node<K, V>,
    left: Node<K, V>,
    sk: K,
    sv: V,
    right: Node<K, V>,
    lo: Option<K>,
    hi: Option<K>,
    pairs: Seq<(K, V)>,
    begin: int,
    p: int,
    len0: int,
    len: int,
) -> bool {
    &&& 0 <= begin <= p <= pairs.len()
    &&& left.wf_in(lo, Some(sk), MIN_LEN as nat)
    &&& right.wf_in(Some(sk), hi, MIN_LEN as nat)
    &&& above(lo, sk)
    &&& below(sk, hi)
    &&& left.height() == start.height()
    &&& right.height() == start.height()
    &&& forall|x: K|
        joined(left, sk, sv, right, x) == after(#[trigger] start.lookup(x), pairs, begin, p, x)
    &&& len == len0 + fresh(looks(start), pairs, begin, p)
    &&& forall|j: int|
        begin <= j < p ==> above(lo, (#[trigger] pairs[j]).0) && below(pairs[j].0, hi)
}

/// Before the first pair of a run the node is as it was.
pub proof fn lemma_ran_none<K: Ord, V>(
    start: Node<K, V>,
    lo: Option<K>,
    hi: Option<K>,
    pairs: Seq<(K, V)>,
    begin: int,
    len0: int,
)
    requires
        start.ordered_in(lo, hi),
        0 <= begin <= pairs.len(),
    ensures
        ran(start, start, lo, hi, pairs, begin, begin, len0, len0),
{
    reveal(ran);
}

/// What a run keeps of the node: its order, its bounds and its height.
pub proof fn lemma_ran_shape<K: Ord, V>(
    start: Node<K, V>,
    now: Node<K, V>,
    lo: Option<K>,
    hi: Option<K>,
    pairs: Seq<(K, V)>,
    begin: int,
    p: int,
    len0: int,
    len: int,
)
    requires
        ran(start, now, lo, hi, pairs, begin, p, len0, len),
    ensures
        0 <= begin <= p <= pairs.len(),
        now.ordered_in(lo, hi),
        now.height() == start.height(),
        start.keys.len() <= now.keys.len(),
        p > begin ==> above(lo, pairs[p - 1].0),
{
    reveal(ran);
}

/// A key that follows a key above `lo` in ascending keys is above `lo`.
pub proof fn lemma_next_above<K: Ord, V>(lo: Option<K>, pairs: Seq<(K, V)>, p: int, q: int)
    requires
        total_order::<K>(),
        sorted(keys_of(pairs)),
        0 <= p <= q < pairs.len(),
        above(lo, pairs[p].0),
    ensures
        above(lo, pairs[q].0),
        le(pairs[p].0, pairs[q].0),
{
    lemma_order::<K>();
    assert(le(keys_of(pairs)[p], keys_of(pairs)[q]));
}

/// One more pair was put into the node itself.
pub proof fn lemma_ran_one<K: Ord, V>(
    start: Node<K, V>,
    now: Node<K, V>,
    next: Node<K, V>,
    lo: Option<K>,
    hi: Option<K>,
    pairs: Seq<(K, V)>,
    begin: int,
    p: int,
    len0: int,
    len: int,
)
    requires
        ran(start, now, lo, hi, pairs, begin, p, len0, len),
        p < pairs.len(),
        above(lo, pairs[p].0),
        below(pairs[p].0, hi),
        next.ordered_in(lo, hi),
        next.height() == now.height(),
        now.keys.len() <= next.keys.len(),
        forall|x: K| #[trigger] next.lookup(x) == put(now.lookup(x), x, pairs[p].0, pairs[p].1),
    ensures
        ran(
            start,
            next,
            lo,
            hi,
            pairs,
            begin,
            p + 1,
            len0,
            if now.lookup(pairs[p].0) is None {
                len + 1
            } else {
                len
            },
        ),
{
    reveal(ran);
    assert forall|x: K| #[trigger]
        next.lookup(x) == after(start.lookup(x), pairs, begin, p + 1, x) by {
        assert(now.lookup(x) == after(start.lookup(x), pairs, begin, p, x));
    }
    assert(now.lookup(pairs[p].0) == after(
        start.lookup(pairs[p].0),
        pairs,
        begin,
        p,
        pairs[p].0,
    ));
    assert(looks(start)(pairs[p].0) == start.lookup(pairs[p].0));
}

/// The pair at `p` has a key that the node holds: its value was replaced.
pub proof fn lemma_ran_replaced<K: Ord, V>(
    start: Node<K, V>,
    now: Node<K, V>,
    next: Node<K, V>,
    lo: Option<K>,
    hi: Option<K>,
    pairs: Seq<(K, V)>,
    begin: int,
    p: int,
    len0: int,
    len: int,
)
    requires
        total_order::<K>(),
        ran(start, now, lo, hi, pairs, begin, p, len0, len),
        p < pairs.len(),
        above(lo, pairs[p].0),
        below(pairs[p].0, hi),
        among(now.keys@, pairs[p].0),
        next.keys@ == now.keys@,
        next.vals@ == now.vals@.update(rank(now.keys@, pairs[p].0), pairs[p].1),
        next.edges@ == now.edges@,
    ensures
        ran(start, next, lo, hi, pairs, begin, p + 1, len0, len),
        next.ordered_in(lo, hi),
        next.height() == start.height(),
{
    lemma_ran_shape(start, now, lo, hi, pairs, begin, p, len0, len);
    lemma_value_replaced(now, next, lo, hi, pairs[p].0, pairs[p].1);
    lemma_ran_one(start, now, next, lo, hi, pairs, begin, p, len0, len);
}

/// The pair at `p` has a key that is new, and the node is a leaf: the
/// pair was put in at the rank of its key.
pub proof fn lemma_ran_added<K: Ord, V>(
    start: Node<K, V>,
    now: Node<K, V>,
    next: Node<K, V>,
    lo: Option<K>,
    hi: Option<K>,
    pairs: Seq<(K, V)>,
    begin: int,
    p: int,
    len0: int,
    len: int,
)
    requires
        total_order::<K>(),
        ran(start, now, lo, hi, pairs, begin, p, len0, len),
        p < pairs.len(),
        above(lo, pairs[p].0),
        below(pairs[p].0, hi),
        now.is_leaf(),
        !among(now.keys@, pairs[p].0),
        next.keys@ == now.keys@.insert(rank(now.keys@, pairs[p].0), pairs[p].0),
        next.vals@ == now.vals@.insert(rank(now.keys@, pairs[p].0), pairs[p].1),
        next.edges@ == now.edges@,
    ensures
        ran(start, next, lo, hi, pairs, begin, p + 1, len0, len + 1),
        next.ordered_in(lo, hi),
        next.height() == start.height(),
{
    lemma_ran_shape(start, now, lo, hi, pairs, begin, p, len0, len);
    lemma_rank(now.keys@, pairs[p].0);
    lemma_leaf_entry_added(now, next, lo, hi, pairs[p].0, pairs[p].1);
    lemma_ran_one(start, now, next, lo, hi, pairs, begin, p, len0, len);
}

/// What a run under edge `i` did to the pairs from `p` up to `end`, said
/// of the node above.
pub proof fn lemma_ran_through<K: Ord, V>(
    start: Node<K, V>,
    now: Node<K, V>,
    next: Node<K, V>,
    lo: Option<K>,
    hi: Option<K>,
    pairs: Seq<(K, V)>,
    begin: int,
    p: int,
    end: int,
    len0: int,
    len: int,
    len2: int,
    i: int,
)
    requires
        total_order::<K>(),
        ran(start, now, lo, hi, pairs, begin, p, len0, len),
        p <= end <= pairs.len(),
        0 <= i < now.edges.len(),
        forall|j: int|
            p <= j < end ==> above(now.edge_lo(lo, i), (#[trigger] pairs[j]).0) && below(
                pairs[j].0,
                now.edge_hi(hi, i),
            ),
        next.ordered_in(lo, hi),
        next.height() == now.height(),
        now.keys.len() <= next.keys.len(),
        forall|x: K| #[trigger]
            next.lookup(x) == routed(
                now,
                i,
                |y: K| after(now.edges[i].lookup(y), pairs, p, end, y),
                x,
            ),
        len2 == len + fresh(looks(now.edges[i]), pairs, p, end),
    ensures
        ran(start, next, lo, hi, pairs, begin, end, len0, len2),
{
    reveal(ran);
    lemma_order::<K>();
    let child = now.edges[i];
    assert(now.edges.len() == now.keys.len() + 1);
    assert forall|j: int| p <= j < end implies above(lo, (#[trigger] pairs[j]).0) && below(
        pairs[j].0,
        hi,
    ) && now.lookup(pairs[j].0) == child.lookup(pairs[j].0) by {
        let k = pairs[j].0;
        if i > 0 {
            assert(above(lo, now.keys[i - 1]));
        }
        if i < now.keys.len() {
            assert(below(now.keys[i], hi));
        }
        lemma_rank_of_edge(now.keys@, i, k);
    }
    assert forall|x: K| #[trigger]
        next.lookup(x) == after(start.lookup(x), pairs, begin, end, x) by {
        lemma_rank(now.keys@, x);
        assert(now.lookup(x) == after(start.lookup(x), pairs, begin, p, x));
        lemma_after_joins(start.lookup(x), pairs, begin, p, end, x);
        if rank(now.keys@, x) == i && !among(now.keys@, x) {
            assert(now.lookup(x) == child.lookup(x));
        } else {
            assert forall|j: int| p <= j < end implies (#[trigger] pairs[j]).0 != x by {
                lemma_rank_of_edge(now.keys@, i, pairs[j].0);
            }
            lemma_after_elsewhere(now.lookup(x), pairs, p, end, x);
        }
    }
    assert(fresh(looks(child), pairs, p, end) == fresh(looks(now), pairs, p, end)) by {
        assert forall|j: int| p <= j < end implies looks(child)((#[trigger] pairs[j]).0)
            == looks(now)(pairs[j].0) by {}
        lemma_fresh_agrees(looks(child), looks(now), pairs, p, end);
    }
    assert(fresh(looks(start), pairs, begin, end) == fresh(looks(start), pairs, begin, p)
        + fresh(looks(now), pairs, p, end)) by {
        assert forall|j: int| p <= j < end implies looks(now)((#[trigger] pairs[j]).0) == after(
            looks(start)(pairs[j].0),
            pairs,
            begin,
            p,
            pairs[j].0,
        ) by {
            assert(now.lookup(pairs[j].0) == after(
                start.lookup(pairs[j].0),
                pairs,
                begin,
                p,
                pairs[j].0,
            ));
        }
        lemma_fresh_joins(looks(start), looks(now), pairs, begin, p, end);
    }
}

/// A run in the child under edge `i` put the pairs from `p` up to `end`,
/// and the child is one node still.
pub proof fn lemma_ran_below<K: Ord, V>(
    start: Node<K, V>,
    now: Node<K, V>,
    next: Node<K, V>,
    lo: Option<K>,
    hi: Option<K>,
    pairs: Seq<(K, V)>,
    begin: int,
    p: int,
    end: int,
    len0: int,
    len: int,
    len2: int,
    i: int,
)
    requires
        total_order::<K>(),
        ran(start, now, lo, hi, pairs, begin, p, len0, len),
        0 <= i < now.edges.len(),
        next.keys@ == now.keys@,
        next.vals@ == now.vals@,
        next.edges.len() == now.edges.len(),
        next.edges@ == now.edges@.update(i, next.edges[i]),
        ran(
            now.edges[i],
            next.edges[i],
            now.edge_lo(lo, i),
            now.edge_hi(hi, i),
            pairs,
            p,
            end,
            len,
            len2,
        ),
        next.edges[i].keys.len() <= CAPACITY,
    ensures
        ran(start, next, lo, hi, pairs, begin, end, len0, len2),
        next.ordered_in(lo, hi),
        next.height() == start.height(),
        forall|k: K|
            above(now.edge_lo(lo, i), k) && below(k, now.edge_hi(hi, i)) ==> above(lo, k)
                && below(k, hi) && #[trigger] next.lookup(k) == next.edges[i].lookup(k)
                && next.splits(k) >= next.edges[i].splits(k) && now.splits(k)
                >= now.edges[i].splits(k),
{
    lemma_ran_shape(start, now, lo, hi, pairs, begin, p, len0, len);
    let child = now.edges[i];
    let clo = now.edge_lo(lo, i);
    let chi = now.edge_hi(hi, i);
    let g = |y: K| after(child.lookup(y), pairs, p, end, y);
    assert(next.edges[i].ordered_in(clo, chi) && next.edges[i].height() == child.height()
        && child.keys.len() <= next.edges[i].keys.len() && p <= end <= pairs.len() && (forall|
        x: K,
    | #[trigger] next.edges[i].lookup(x) == g(x)) && len2 == len + fresh(
        looks(child),
        pairs,
        p,
        end,
    ) && (forall|j: int|
        p <= j < end ==> above(clo, (#[trigger] pairs[j]).0) && below(pairs[j].0, chi))) by {
        reveal(ran);
    }
    lemma_child_replaced(now, next, lo, hi, i, g);
    lemma_ran_through(start, now, next, lo, hi, pairs, begin, p, end, len0, len, len2, i);
    assert forall|k: K| above(clo, k) && below(k, chi) implies above(lo, k) && below(k, hi)
        && #[trigger] next.lookup(k) == next.edges[i].lookup(k) && next.splits(k)
        >= next.edges[i].splits(k) && now.splits(k) >= now.edges[i].splits(k) by {
        lemma_order::<K>();
        if i > 0 {
            assert(above(lo, now.keys[i - 1]));
        }
        if i < now.keys.len() {
            assert(below(now.keys[i], hi));
        }
        lemma_rank_of_edge(next.keys@, i, k);
    }
}

/// A run in the child under edge `i` put the pairs from `p` up to `end`
/// and split the child: its two parts and the entry between them stand
/// in the node.
pub proof fn lemma_ran_below_split<K: Ord, V>(
    start: Node<K, V>,
    now: Node<K, V>,
    next: Node<K, V>,
    lo: Option<K>,
    hi: Option<K>,
    pairs: Seq<(K, V)>,
    begin: int,
    p: int,
    end: int,
    len0: int,
    len: int,
    len2: int,
    i: int,
    left: Node<K, V>,
    sk: K,
    sv: V,
    right: Node<K, V>,
)
    requires
        total_order::<K>(),
        ran(start, now, lo, hi, pairs, begin, p, len0, len),
        0 <= i < now.edges.len(),
        next.keys@ == now.keys@.insert(i, sk),
        next.vals@ == now.vals@.insert(i, sv),
        next.edges@ == now.edges@.update(i, left).insert(i + 1, right),
        ran_apart(
            now.edges[i],
            left,
            sk,
            sv,
            right,
            now.edge_lo(lo, i),
            now.edge_hi(hi, i),
            pairs,
            p,
            end,
            len,
            len2,
        ),
    ensures
        ran(start, next, lo, hi, pairs, begin, end, len0, len2),
        next.ordered_in(lo, hi),
        next.height() == start.height(),
{
    lemma_ran_shape(start, now, lo, hi, pairs, begin, p, len0, len);
    let child = now.edges[i];
    let clo = now.edge_lo(lo, i);
    let chi = now.edge_hi(hi, i);
    let g = |y: K| after(child.lookup(y), pairs, p, end, y);
    reveal(ran_apart);
    assert forall|x: K| #[trigger] joined(left, sk, sv, right, x) == g(x) by {
        assert(joined(left, sk, sv, right, x) == after(child.lookup(x), pairs, p, end, x));
    }
    lemma_child_split(now, next, lo, hi, i, g, left, sk, sv, right);
    lemma_ran_through(start, now, next, lo, hi, pairs, begin, p, end, len0, len, len2, i);
}

/// The pair at `p` has a key that is new, and the node is a full leaf: the
/// pair was put in at the rank of its key and the leaf was split.
pub proof fn lemma_ran_burst<K: Ord, V>(
    start: Node<K, V>,
    now: Node<K, V>,
    left: Node<K, V>,
    sk: K,
    sv: V,
    right: Node<K, V>,
    lo: Option<K>,
    hi: Option<K>,
    pairs: Seq<(K, V)>,
    begin: int,
    p: int,
    len0: int,
    len: int,
)
    requires
        total_order::<K>(),
        ran(start, now, lo, hi, pairs, begin, p, len0, len),
        p < pairs.len(),
        above(lo, pairs[p].0),
        below(pairs[p].0, hi),
        now.is_leaf(),
        now.keys.len() == CAPACITY,
        !among(now.keys@, pairs[p].0),
        burst_of(now, pairs[p], rank(now.keys@, pairs[p].0), left, sk, sv, right),
    ensures
        ran_apart(start, left, sk, sv, right, lo, hi, pairs, begin, p + 1, len0, len + 1),
{
    reveal(ran);
    reveal(ran_apart);
    let k = pairs[p].0;
    let v = pairs[p].1;
    lemma_leaf_burst(now, left, sk, sv, right, lo, hi, k, v);
    assert forall|x: K|
        joined(left, sk, sv, right, x) == after(
            #[trigger] start.lookup(x),
            pairs,
            begin,
            p + 1,
            x,
        ) by {
        assert(now.lookup(x) == after(start.lookup(x), pairs, begin, p, x));
        assert(joined(left, sk, sv, right, x) == put(now.lookup(x), x, k, v));
    }
    assert(now.lookup(k) == after(start.lookup(k), pairs, begin, p, k));
    assert(looks(start)(k) == start.lookup(k));
}

/// A node that a run left with one entry too many was split.
pub proof fn lemma_ran_apart<K: Ord, V>(
    start: Node<K, V>,
    over: Node<K, V>,
    left: Node<K, V>,
    right: Node<K, V>,
    lo: Option<K>,
    hi: Option<K>,
    pairs: Seq<(K, V)>,
    begin: int,
    p: int,
    len0: int,
    len: int,
)
    requires
        total_order::<K>(),
        ran(start, over, lo, hi, pairs, begin, p, len0, len),
        over.keys.len() == CAPACITY + 1,
        left.keys@ == over.keys@.subrange(0, SPLIT_AT as int),
        left.vals@ == over.vals@.subrange(0, SPLIT_AT as int),
        right.keys@ == over.keys@.subrange(SPLIT_AT + 1, CAPACITY + 1),
        right.vals@ == over.vals@.subrange(SPLIT_AT + 1, CAPACITY + 1),
        over.is_leaf() ==> left.is_leaf() && right.is_leaf(),
        !over.is_leaf() ==> left.edges@ == over.edges@.subrange(0, SPLIT_AT + 1) && right.edges@
            == over.edges@.subrange(SPLIT_AT + 1, CAPACITY + 2),
    ensures
        ran_apart(
            start,
            left,
            over.keys[SPLIT_AT as int],
            over.vals[SPLIT_AT as int],
            right,
            lo,
            hi,
            pairs,
            begin,
            p,
            len0,
            len,
        ),
{
    reveal(ran);
    reveal(ran_apart);
    lemma_node_split(over, left, right, lo, hi);
    let sk = over.keys[SPLIT_AT as int];
    let sv = over.vals[SPLIT_AT as int];
    assert forall|x: K|
        joined(left, sk, sv, right, x) == after(#[trigger] start.lookup(x), pairs, begin, p, x) by {
        assert(over.lookup(x) == after(start.lookup(x), pairs, begin, p, x));
    }
}

} // verus!
