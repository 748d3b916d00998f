//! What a change to one node does to the order and the content of the
//! subtree under it.

use crate::btree::node::{
    among, ascending, rank, rank_from, Node, CAPACITY, MIN_LEN, SPLIT_AT,
};
use crate::btree::order::{above, below, lemma_order, lt, total_order};
use vstd::prelude::*;

verus! {

/// Where `rank_from` stops, said without recursion.
pub proof fn lemma_rank_from<K: Ord>(keys: Seq<K>, k: K, start: int)
    requires
        0 <= start <= keys.len(),
    ensures
        start <= rank_from(keys, k, start) <= keys.len(),
        forall|j: int| start <= j < rank_from(keys, k, start) ==> lt(#[trigger] keys[j], k),
        rank_from(keys, k, start) < keys.len() ==> !lt(keys[rank_from(keys, k, start)], k),
    decreases keys.len() - start,
{
    if start < keys.len() && lt(keys[start], k) {
        lemma_rank_from(keys, k, start + 1);
    }
}

/// A scan that starts behind keys that are all before `k` stops where a
/// scan from the first key stops.
pub proof fn lemma_rank_resume<K: Ord>(keys: Seq<K>, k: K, start: int)
    requires
        0 <= start <= keys.len(),
        forall|j: int| 0 <= j < start ==> lt(#[trigger] keys[j], k),
    ensures
        rank_from(keys, k, start) == rank(keys, k),
    decreases start,
{
    if start > 0 {
        lemma_rank_resume(keys, k, start - 1);
    }
}

/// The index behind all keys before `k` and at a key that is not before
/// `k` is the rank of `k`.
pub proof fn lemma_rank_unique<K: Ord>(keys: Seq<K>, k: K, r: int)
    requires
        0 <= r <= keys.len(),
        forall|j: int| 0 <= j < r ==> lt(#[trigger] keys[j], k),
        r < keys.len() ==> !lt(keys[r], k),
    ensures
        rank(keys, k) == r,
{
    lemma_rank_resume(keys, k, r);
}

/// The rank of `k`, said without recursion.
pub proof fn lemma_rank<K: Ord>(keys: Seq<K>, k: K)
    ensures
        0 <= rank(keys, k) <= keys.len(),
        forall|j: int| 0 <= j < rank(keys, k) ==> lt(#[trigger] keys[j], k),
        rank(keys, k) < keys.len() ==> !lt(keys[rank(keys, k)], k),
{
    lemma_rank_from(keys, k, 0);
}

/// A key between the bounds of edge `i` has rank `i` and is none of the keys.
pub proof fn lemma_rank_of_edge<K: Ord>(keys: Seq<K>, i: int, k: K)
    requires
        total_order::<K>(),
        ascending(keys),
        0 <= i <= keys.len(),
        i > 0 ==> lt(keys[i - 1], k),
        i < keys.len() ==> lt(k, keys[i]),
    ensures
        rank(keys, k) == i,
        !among(keys, k),
{
    lemma_order::<K>();
    lemma_rank_unique(keys, k, i);
}

/// The ranks in ascending keys into which one more key was put at its rank.
pub proof fn lemma_rank_insert<K: Ord>(keys: Seq<K>, k: K, x: K)
    requires
        total_order::<K>(),
        ascending(keys),
        !among(keys, k),
    ensures
        ascending(keys.insert(rank(keys, k), k)),
        x == k ==> rank(keys.insert(rank(keys, k), k), x) == rank(keys, k),
        lt(x, k) ==> rank(keys.insert(rank(keys, k), k), x) == rank(keys, x) && rank(keys, x)
            <= rank(keys, k),
        lt(k, x) ==> rank(keys.insert(rank(keys, k), k), x) == rank(keys, x) + 1 && rank(keys, x)
            >= rank(keys, k),
        among(keys.insert(rank(keys, k), k), x) <==> x == k || among(keys, x),
{
    lemma_order::<K>();
    lemma_rank(keys, k);
    lemma_rank(keys, x);
    let i = rank(keys, k);
    let r = rank(keys, x);
    let keys2 = keys.insert(i, k);
    assert(forall|j: int| 0 <= j < i ==> keys2[j] == keys[j]);
    assert(keys2[i] == k);
    assert(forall|j: int| i < j < keys2.len() ==> keys2[j] == keys[j - 1]);
    assert forall|j: int| i <= j < keys.len() implies lt(k, #[trigger] keys[j]) by {
        assert(!lt(keys[i], k) && keys[i] != k);
    }
    assert(ascending(keys2)) by {
        assert forall|a: int, b: int| 0 <= a < b < keys2.len() implies lt(keys2[a], keys2[b]) by {
            if b < i {
            } else if b == i {
                assert(lt(keys[a], k));
            } else if a < i {
                assert(lt(keys[a], k));
                assert(lt(k, keys[b - 1]));
            } else if a == i {
                assert(lt(k, keys[b - 1]));
            } else {
                assert(lt(keys[a - 1], keys[b - 1]));
            }
        }
    }
    if x == k {
        lemma_rank_unique(keys2, x, i);
    } else if lt(x, k) {
        if r > i {
            assert(lt(keys[i], x));
            assert(lt(k, keys[i]));
        }
        assert(r <= i);
        if r < keys.len() {
            assert(!lt(keys[r], x));
        }
        lemma_rank_unique(keys2, x, r);
        if r == i && i < keys.len() {
            assert(lt(k, keys[i]));
        }
    } else {
        if r < i {
            assert(!lt(keys[r], x));
            assert(lt(keys[r], k));
        }
        assert(r >= i);
        assert forall|j: int| 0 <= j < r + 1 implies lt(#[trigger] keys2[j], x) by {
            if j < i {
                assert(lt(keys[j], k));
            } else if j == i {
            } else {
                assert(lt(keys[j - 1], x));
            }
        }
        lemma_rank_unique(keys2, x, r + 1);
    }
}

/// The ranks in the two parts of ascending keys split at `mid`.
pub proof fn lemma_rank_split<K: Ord>(keys: Seq<K>, mid: int, x: K)
    requires
        total_order::<K>(),
        ascending(keys),
        0 <= mid < keys.len(),
    ensures
        lt(x, keys[mid]) ==> rank(keys.subrange(0, mid), x) == rank(keys, x) && rank(keys, x)
            <= mid && !(rank(keys, x) == mid && among(keys, x)),
        x == keys[mid] ==> rank(keys, x) == mid,
        lt(keys[mid], x) ==> rank(keys.subrange(mid + 1, keys.len() as int), x) == rank(keys, x)
            - (mid + 1) && rank(keys, x) > mid,
{
    lemma_order::<K>();
    lemma_rank(keys, x);
    let r = rank(keys, x);
    let left = keys.subrange(0, mid);
    let right = keys.subrange(mid + 1, keys.len() as int);
    if x == keys[mid] {
        assert forall|j: int| 0 <= j < mid implies lt(#[trigger] keys[j], x) by {}
        lemma_rank_unique(keys, x, mid);
    } else if lt(x, keys[mid]) {
        if r > mid {
            assert(lt(keys[mid], x));
        }
        assert forall|j: int| 0 <= j < r implies lt(#[trigger] left[j], x) by {
            assert(left[j] == keys[j]);
        }
        if r < mid {
            assert(left[r] == keys[r]);
        }
        lemma_rank_unique(left, x, r);
    } else {
        if r <= mid {
            assert(!lt(keys[r], x));
            if r < mid {
                assert(lt(keys[r], keys[mid]));
            }
        }
        assert forall|j: int| 0 <= j < r - (mid + 1) implies lt(#[trigger] right[j], x) by {
            assert(right[j] == keys[j + mid + 1]);
        }
        if r < keys.len() {
            assert(right[r - (mid + 1)] == keys[r]);
        }
        lemma_rank_unique(right, x, r - (mid + 1));
    }
}

/// What a lookup of `x` gives once `k` holds `v`, where it gave `was`.
pub open spec fn put<K, V>(was: Option<V>, x: K, k: K, v: V) -> Option<V> {
    if x == k {
        Some(v)
    } else {
        was
    }
}

/// What a lookup of `x` gives in two subtrees that stand on the two sides
/// of the entry `(sk, sv)`.
pub open spec fn joined<K: Ord, V>(left: Node<K, V>, sk: K, sv: V, right: Node<K, V>, x: K) -> Option<
    V,
> {
    if lt(x, sk) {
        left.lookup(x)
    } else if x == sk {
        Some(sv)
    } else {
        right.lookup(x)
    }
}

/// A new value in place of the one that `k` had in this node.
pub proof fn lemma_value_replaced<K: Ord, V>(
    before: Node<K, V>,
    after: Node<K, V>,
    lo: Option<K>,
    hi: Option<K>,
    k: K,
    v: V,
)
    requires
        total_order::<K>(),
        before.ordered_in(lo, hi),
        among(before.keys@, k),
        after.keys@ == before.keys@,
        after.vals@ == before.vals@.update(rank(before.keys@, k), v),
        after.edges@ == before.edges@,
    ensures
        after.ordered_in(lo, hi),
        after.height() == before.height(),
        before.lookup(k) == Some(before.vals[rank(before.keys@, k)]),
        forall|x: K| #[trigger] after.lookup(x) == put(before.lookup(x), x, k, v),
{
    assert forall|i: int| 0 <= i < after.edges.len() implies (#[trigger] after.edges[i]).ordered_in(
        after.edge_lo(lo, i),
        after.edge_hi(hi, i),
    ) by {
        assert(after.edges[i] == before.edges[i]);
        assert(after.edge_lo(lo, i) == before.edge_lo(lo, i));
        assert(after.edge_hi(hi, i) == before.edge_hi(hi, i));
    }
    assert forall|x: K| #[trigger] after.lookup(x) == put(before.lookup(x), x, k, v) by {
        lemma_rank(before.keys@, x);
        let r = rank(before.keys@, x);
        if 0 <= r < before.edges.len() {
            assert(after.edges[r] == before.edges[r]);
        }
    }
}

/// What a lookup of `x` gives in a node whose child under edge `i` now
/// answers `g` and which is otherwise as `before`.
pub open spec fn routed<K: Ord, V>(
    before: Node<K, V>,
    i: int,
    g: spec_fn(K) -> Option<V>,
    x: K,
) -> Option<V> {
    if rank(before.keys@, x) == i && !among(before.keys@, x) {
        g(x)
    } else {
        before.lookup(x)
    }
}

/// A child in place of the one under edge `i`, of the same height and
/// between the same bounds, which answers `g`.
pub proof fn lemma_child_replaced<K: Ord, V>(
    before: Node<K, V>,
    after: Node<K, V>,
    lo: Option<K>,
    hi: Option<K>,
    i: int,
    g: spec_fn(K) -> Option<V>,
)
    requires
        total_order::<K>(),
        before.ordered_in(lo, hi),
        0 <= i < before.edges.len(),
        after.keys@ == before.keys@,
        after.vals@ == before.vals@,
        after.edges.len() == before.edges.len(),
        after.edges@ == before.edges@.update(i, after.edges[i]),
        after.edges[i].ordered_in(before.edge_lo(lo, i), before.edge_hi(hi, i)),
        MIN_LEN <= after.edges[i].keys.len() <= CAPACITY,
        after.edges[i].height() == before.edges[i].height(),
        forall|x: K| #[trigger] after.edges[i].lookup(x) == g(x),
    ensures
        after.ordered_in(lo, hi),
        after.height() == before.height(),
        forall|x: K| #[trigger] after.lookup(x) == routed(before, i, g, x),
{
    assert forall|j: int| 0 <= j < after.edges.len() implies {
        &&& (#[trigger] after.edges[j]).ordered_in(after.edge_lo(lo, j), after.edge_hi(hi, j))
        &&& MIN_LEN <= after.edges[j].keys.len() <= CAPACITY
        &&& after.edges[j].height() + 1 == after.height()
    } by {
        assert(after.edge_lo(lo, j) == before.edge_lo(lo, j));
        assert(after.edge_hi(hi, j) == before.edge_hi(hi, j));
        if j != i {
            assert(after.edges[j] == before.edges[j]);
        }
        assert(before.edges[j].height() + 1 == before.height());
        assert(before.edges[0].height() + 1 == before.height());
    }
    assert forall|x: K| #[trigger] after.lookup(x) == routed(before, i, g, x) by {
        lemma_rank(before.keys@, x);
        let r = rank(before.keys@, x);
        assert(after.edges.len() == before.edges.len());
        if among(before.keys@, x) {
            assert(after.lookup(x) == Some(after.vals[r]));
        } else if r != i {
            assert(after.edges[r] == before.edges[r]);
            assert(after.lookup(x) == after.edges[r].lookup(x));
            assert(before.lookup(x) == before.edges[r].lookup(x));
        } else {
            assert(after.lookup(x) == after.edges[i].lookup(x));
        }
    }
}

/// Where the child under the edge at the rank of `k` answers with `v` for
/// `k` and otherwise as it did, so does the node.
pub proof fn lemma_routed_put<K: Ord, V>(before: Node<K, V>, k: K, v: V, x: K)
    requires
        !among(before.keys@, k),
        0 <= rank(before.keys@, k) < before.edges.len(),
        before.vals.len() == before.keys.len(),
    ensures
        routed(
            before,
            rank(before.keys@, k),
            |y: K| put(before.edges[rank(before.keys@, k)].lookup(y), y, k, v),
            x,
        ) == put(before.lookup(x), x, k, v),
{
    lemma_rank(before.keys@, x);
}

/// One more entry in a leaf, at the rank of its key.
pub proof fn lemma_leaf_entry_added<K: Ord, V>(
    before: Node<K, V>,
    after: Node<K, V>,
    lo: Option<K>,
    hi: Option<K>,
    k: K,
    v: V,
)
    requires
        total_order::<K>(),
        before.ordered_in(lo, hi),
        before.is_leaf(),
        !among(before.keys@, k),
        above(lo, k),
        below(k, hi),
        after.keys@ == before.keys@.insert(rank(before.keys@, k), k),
        after.vals@ == before.vals@.insert(rank(before.keys@, k), v),
        after.edges@ == before.edges@,
    ensures
        after.ordered_in(lo, hi),
        after.height() == before.height(),
        before.lookup(k) is None,
        forall|x: K| #[trigger] after.lookup(x) == put(before.lookup(x), x, k, v),
{
    lemma_order::<K>();
    lemma_rank(before.keys@, k);
    let i = rank(before.keys@, k);
    lemma_rank_insert(before.keys@, k, k);
    assert forall|j: int| 0 <= j < after.keys.len() implies above(lo, #[trigger] after.keys[j])
        && below(after.keys[j], hi) by {
        if j < i {
            assert(after.keys[j] == before.keys[j]);
        } else if j > i {
            assert(after.keys[j] == before.keys[j - 1]);
        }
    }
    assert forall|x: K| #[trigger] after.lookup(x) == put(before.lookup(x), x, k, v) by {
        lemma_rank(before.keys@, x);
        lemma_rank_insert(before.keys@, k, x);
        lemma_rank(after.keys@, x);
        let r = rank(before.keys@, x);
        if x == k {
        } else if lt(x, k) {
            if among(before.keys@, x) {
                assert(r < i);
            }
        } else {
        }
    }
}

/// Two children and the entry between them in place of the child under
/// edge `i`, of the same height and between the same bounds, which
/// together answer `g`.
pub proof fn lemma_child_split<K: Ord, V>(
    before: Node<K, V>,
    after: Node<K, V>,
    lo: Option<K>,
    hi: Option<K>,
    i: int,
    g: spec_fn(K) -> Option<V>,
    left: Node<K, V>,
    sk: K,
    sv: V,
    right: Node<K, V>,
)
    requires
        total_order::<K>(),
        before.ordered_in(lo, hi),
        0 <= i < before.edges.len(),
        after.keys@ == before.keys@.insert(i, sk),
        after.vals@ == before.vals@.insert(i, sv),
        after.edges@ == before.edges@.update(i, left).insert(
            i + 1,
            right,
        ),
        above(before.edge_lo(lo, i), sk),
        below(sk, before.edge_hi(hi, i)),
        left.wf_in(before.edge_lo(lo, i), Some(sk), MIN_LEN as nat),
        right.wf_in(Some(sk), before.edge_hi(hi, i), MIN_LEN as nat),
        left.height() == before.edges[i].height(),
        right.height() == before.edges[i].height(),
        forall|x: K| #[trigger] joined(left, sk, sv, right, x) == g(x),
    ensures
        after.ordered_in(lo, hi),
        after.height() == before.height(),
        forall|x: K| #[trigger] after.lookup(x) == routed(before, i, g, x),
{
    lemma_order::<K>();
    let n = before.keys.len() as int;
    let child = before.edges[i];
    assert(before.edges.len() == n + 1);
    if i > 0 {
        assert(lt(before.keys[i - 1], sk));
    }
    if i < n {
        assert(lt(sk, before.keys[i]));
    }
    lemma_rank_of_edge(before.keys@, i, sk);
    lemma_rank_insert(before.keys@, sk, sk);
    assert(forall|j: int| 0 <= j < i ==> after.keys[j] == before.keys[j]);
    assert(after.keys[i] == sk);
    assert(forall|j: int| i < j <= n ==> after.keys[j] == before.keys[j - 1]);
    assert(forall|j: int| 0 <= j < i ==> after.vals[j] == before.vals[j]);
    assert(after.vals[i] == sv);
    assert(forall|j: int| i < j <= n ==> after.vals[j] == before.vals[j - 1]);
    assert(forall|j: int| 0 <= j < i ==> after.edges[j] == before.edges[j]);
    assert(after.edges[i] == left);
    assert(after.edges[i + 1] == right);
    assert(forall|j: int| i + 1 < j <= n + 1 ==> after.edges[j] == before.edges[j - 1]);
    assert(above(lo, sk) && below(sk, hi)) by {
        if i > 0 {
            assert(above(lo, before.keys[i - 1]));
        }
        if i < n {
            assert(below(before.keys[i], hi));
        }
    }
    assert forall|j: int| 0 <= j < after.keys.len() implies above(lo, #[trigger] after.keys[j])
        && below(after.keys[j], hi) by {
        if j < i {
            assert(after.keys[j] == before.keys[j]);
        } else if j > i {
            assert(after.keys[j] == before.keys[j - 1]);
        }
    }
    assert(before.edges[0].height() + 1 == before.height());
    assert(child.height() + 1 == before.height());
    assert(after.height() == before.height()) by {
        if i == 0 {
            assert(after.edges[0] == left);
        } else {
            assert(after.edges[0] == before.edges[0]);
        }
    }
    assert forall|j: int| 0 <= j < after.edges.len() implies {
        &&& (#[trigger] after.edges[j]).ordered_in(after.edge_lo(lo, j), after.edge_hi(hi, j))
        &&& MIN_LEN <= after.edges[j].keys.len() <= CAPACITY
        &&& after.edges[j].height() + 1 == after.height()
    } by {
        if j < i {
            assert(after.edges[j] == before.edges[j]);
            assert(after.edge_lo(lo, j) == before.edge_lo(lo, j));
            assert(after.edge_hi(hi, j) == before.edge_hi(hi, j));
            assert(before.edges[j].height() + 1 == before.height());
        } else if j == i {
            assert(after.edge_lo(lo, j) == before.edge_lo(lo, i));
            assert(after.edge_hi(hi, j) == Some(sk));
        } else if j == i + 1 {
            assert(after.edge_lo(lo, j) == Some(sk));
            assert(after.edge_hi(hi, j) == before.edge_hi(hi, i));
        } else {
            assert(after.edges[j] == before.edges[j - 1]);
            assert(after.edge_lo(lo, j) == before.edge_lo(lo, j - 1));
            assert(after.edge_hi(hi, j) == before.edge_hi(hi, j - 1));
            assert(before.edges[j - 1].height() + 1 == before.height());
        }
    }
    assert forall|x: K| #[trigger] after.lookup(x) == routed(before, i, g, x) by {
        lemma_rank(before.keys@, x);
        lemma_rank_insert(before.keys@, sk, x);
        lemma_rank(after.keys@, x);
        let r = rank(before.keys@, x);
        let r2 = rank(after.keys@, x);
        assert(joined(left, sk, sv, right, x) == g(x));
        if x == sk {
            assert(after.lookup(x) == Some(sv));
        } else if lt(x, sk) {
            assert(r2 == r);
            if among(before.keys@, x) {
                assert(r < i);
                assert(after.lookup(x) == Some(after.vals[r]));
            } else if r < i {
                assert(after.lookup(x) == after.edges[r].lookup(x));
                assert(before.lookup(x) == before.edges[r].lookup(x));
            } else {
                assert(after.lookup(x) == left.lookup(x));
                }
        } else {
            assert(r2 == r + 1);
            if among(before.keys@, x) {
                assert(after.keys[r + 1] == before.keys[r]);
                assert(after.lookup(x) == Some(after.vals[r + 1]));
            } else if r > i {
                assert(!among(after.keys@, x));
                assert(after.lookup(x) == after.edges[r + 1].lookup(x));
                assert(before.lookup(x) == before.edges[r].lookup(x));
            } else {
                assert(!among(after.keys@, x));
                assert(after.lookup(x) == right.lookup(x));
                }
        }
    }
}

/// The two parts of a node with one entry too many, and the entry between
/// them.
pub proof fn lemma_node_split<K: Ord, V>(
    node: Node<K, V>,
    left: Node<K, V>,
    right: Node<K, V>,
    lo: Option<K>,
    hi: Option<K>,
)
    requires
        total_order::<K>(),
        node.ordered_in(lo, hi),
        node.keys.len() == CAPACITY + 1,
        left.keys@ == node.keys@.subrange(0, SPLIT_AT as int),
        left.vals@ == node.vals@.subrange(0, SPLIT_AT as int),
        right.keys@ == node.keys@.subrange(SPLIT_AT + 1, CAPACITY + 1),
        right.vals@ == node.vals@.subrange(SPLIT_AT + 1, CAPACITY + 1),
        node.is_leaf() ==> left.is_leaf() && right.is_leaf(),
        !node.is_leaf() ==> left.edges@ == node.edges@.subrange(0, SPLIT_AT + 1) && right.edges@
            == node.edges@.subrange(SPLIT_AT + 1, CAPACITY + 2),
    ensures
        left.wf_in(lo, Some(node.keys[SPLIT_AT as int]), MIN_LEN as nat),
        right.wf_in(Some(node.keys[SPLIT_AT as int]), hi, MIN_LEN as nat),
        left.height() == node.height(),
        right.height() == node.height(),
        above(lo, node.keys[SPLIT_AT as int]),
        below(node.keys[SPLIT_AT as int], hi),
        forall|x: K|
            joined(left, node.keys[SPLIT_AT as int], node.vals[SPLIT_AT as int], right, x)
                == #[trigger] node.lookup(x),
{
    lemma_order::<K>();
    let mid = SPLIT_AT as int;
    let sk = node.keys[mid];
    let sv = node.vals[mid];
    assert(forall|j: int| 0 <= j < mid ==> left.keys[j] == node.keys[j]);
    assert(forall|j: int| 0 <= j < mid ==> left.vals[j] == node.vals[j]);
    assert(forall|j: int| 0 <= j < CAPACITY - mid ==> right.keys[j] == node.keys[j + mid + 1]);
    assert(forall|j: int| 0 <= j < CAPACITY - mid ==> right.vals[j] == node.vals[j + mid + 1]);
    assert(ascending(left.keys@));
    assert(ascending(right.keys@)) by {
        assert forall|a: int, b: int| 0 <= a < b < right.keys.len() implies lt(
            right.keys[a],
            right.keys[b],
        ) by {
            assert(lt(node.keys[a + mid + 1], node.keys[b + mid + 1]));
        }
    }
    assert forall|j: int| 0 <= j < left.keys.len() implies above(lo, #[trigger] left.keys[j])
        && below(left.keys[j], Some(sk)) by {
        assert(left.keys[j] == node.keys[j]);
        assert(lt(node.keys[j], node.keys[mid]));
    }
    assert forall|j: int| 0 <= j < right.keys.len() implies above(
        Some(sk),
        #[trigger] right.keys[j],
    ) && below(right.keys[j], hi) by {
        assert(right.keys[j] == node.keys[j + mid + 1]);
        assert(lt(node.keys[mid], node.keys[j + mid + 1]));
    }
    if !node.is_leaf() {
        assert(forall|j: int| 0 <= j <= mid ==> left.edges[j] == node.edges[j]);
        assert(forall|j: int|
            0 <= j <= CAPACITY - mid ==> right.edges[j] == node.edges[j + mid + 1]);
        assert(node.edges[0].height() + 1 == node.height());
        assert(node.edges[mid + 1].height() + 1 == node.height());
        assert(left.edges[0] == node.edges[0]);
        assert(right.edges[0] == node.edges[mid + 1]);
        assert forall|j: int| 0 <= j < left.edges.len() implies {
            &&& (#[trigger] left.edges[j]).ordered_in(
                left.edge_lo(lo, j),
                left.edge_hi(Some(sk), j),
            )
            &&& MIN_LEN <= left.edges[j].keys.len() <= CAPACITY
            &&& left.edges[j].height() + 1 == left.height()
        } by {
            assert(left.edges[j] == node.edges[j]);
            assert(left.edge_lo(lo, j) == node.edge_lo(lo, j));
            assert(left.edge_hi(Some(sk), j) == node.edge_hi(hi, j));
            assert(node.edges[j].height() + 1 == node.height());
        }
        assert forall|j: int| 0 <= j < right.edges.len() implies {
            &&& (#[trigger] right.edges[j]).ordered_in(
                right.edge_lo(Some(sk), j),
                right.edge_hi(hi, j),
            )
            &&& MIN_LEN <= right.edges[j].keys.len() <= CAPACITY
            &&& right.edges[j].height() + 1 == right.height()
        } by {
            assert(right.edges[j] == node.edges[j + mid + 1]);
            assert(right.edge_lo(Some(sk), j) == node.edge_lo(lo, j + mid + 1));
            assert(right.edge_hi(hi, j) == node.edge_hi(hi, j + mid + 1));
            assert(node.edges[j + mid + 1].height() + 1 == node.height());
        }
    }
    assert(above(lo, node.keys[mid]) && below(node.keys[mid], hi));
    assert forall|x: K| joined(left, sk, sv, right, x) == #[trigger] node.lookup(x) by {
        lemma_rank(node.keys@, x);
        lemma_rank_split(node.keys@, mid, x);
        lemma_rank(left.keys@, x);
        lemma_rank(right.keys@, x);
        let r = rank(node.keys@, x);
        if x == sk {
        } else if lt(x, sk) {
            assert(rank(left.keys@, x) == r);
            if among(node.keys@, x) {
                assert(r < mid);
                assert(left.lookup(x) == Some(left.vals[r]));
            } else if node.is_leaf() {
                assert(left.lookup(x) is None);
                assert(node.lookup(x) is None);
            } else {
                assert(!among(left.keys@, x));
                assert(left.lookup(x) == left.edges[r].lookup(x));
                assert(node.lookup(x) == node.edges[r].lookup(x));
            }
        } else {
            let r2 = r - (mid + 1);
            assert(rank(right.keys@, x) == r2);
            if among(node.keys@, x) {
                assert(right.keys[r2] == node.keys[r]);
                assert(right.lookup(x) == Some(right.vals[r2]));
            } else if node.is_leaf() {
                assert(right.lookup(x) is None);
                assert(node.lookup(x) is None);
            } else {
                if r2 < right.keys.len() {
                    assert(right.keys[r2] == node.keys[r]);
                }
                assert(!among(right.keys@, x));
                assert(right.lookup(x) == right.edges[r2].lookup(x));
                assert(node.lookup(x) == node.edges[r].lookup(x));
            }
        }
    }
}

/// The leaf `left`, the entry `(sk, sv)` and the leaf `right` are what the
/// full leaf `before` gives when `pair` is put into it at index `i` and it
/// is split: the entry at `SPLIT_AT`, the entries before it and those
/// behind it.
pub open spec fn burst_of<K: Ord, V>(
    before: Node<K, V>,
    pair: (K, V),
    i: int,
    left: Node<K, V>,
    sk: K,
    sv: V,
    right: Node<K, V>,
) -> bool {
    let keys = before.keys@.insert(i, pair.0);
    let vals = before.vals@.insert(i, pair.1);
    &&& sk == keys[SPLIT_AT as int]
    &&& sv == vals[SPLIT_AT as int]
    &&& left.keys@ == keys.subrange(0, SPLIT_AT as int)
    &&& left.vals@ == vals.subrange(0, SPLIT_AT as int)
    &&& right.keys@ == keys.subrange(SPLIT_AT + 1, CAPACITY + 1)
    &&& right.vals@ == vals.subrange(SPLIT_AT + 1, CAPACITY + 1)
    &&& left.is_leaf()
    &&& right.is_leaf()
}

/// One more entry in a full leaf, at the rank of its key, and the leaf
/// split.
pub proof fn lemma_leaf_burst<K: Ord, V>(
    before: Node<K, V>,
    left: Node<K, V>,
    sk: K,
    sv: V,
    right: Node<K, V>,
    lo: Option<K>,
    hi: Option<K>,
    k: K,
    v: V,
)
    requires
        total_order::<K>(),
        before.ordered_in(lo, hi),
        before.is_leaf(),
        before.keys.len() == CAPACITY,
        !among(before.keys@, k),
        above(lo, k),
        below(k, hi),
        burst_of(before, (k, v), rank(before.keys@, k), left, sk, sv, right),
    ensures
        left.wf_in(lo, Some(sk), MIN_LEN as nat),
        right.wf_in(Some(sk), hi, MIN_LEN as nat),
        left.height() == before.height(),
        right.height() == before.height(),
        above(lo, sk),
        below(sk, hi),
        before.lookup(k) is None,
        forall|x: K|
            joined(left, sk, sv, right, x) == put(#[trigger] before.lookup(x), x, k, v),
{
    lemma_order::<K>();
    lemma_rank(before.keys@, k);
    let r = rank(before.keys@, k);
    let keys = before.keys@.insert(r, k);
    let vals = before.vals@.insert(r, v);
    let mid = SPLIT_AT as int;
    lemma_rank_insert(before.keys@, k, k);
    assert(forall|j: int| 0 <= j < r ==> keys[j] == before.keys[j] && vals[j] == before.vals[j]);
    assert(keys[r] == k && vals[r] == v);
    assert(forall|j: int|
        r < j <= CAPACITY ==> keys[j] == before.keys[j - 1] && vals[j] == before.vals[j - 1]);
    assert forall|j: int| 0 <= j < keys.len() implies above(lo, #[trigger] keys[j]) && below(
        keys[j],
        hi,
    ) by {
        if j < r {
            assert(keys[j] == before.keys[j]);
        } else if j > r {
            assert(keys[j] == before.keys[j - 1]);
        }
    }
    assert(forall|j: int| 0 <= j < mid ==> left.keys[j] == keys[j] && left.vals[j] == vals[j]);
    assert(forall|j: int|
        0 <= j < CAPACITY - mid ==> right.keys[j] == keys[j + mid + 1] && right.vals[j] == vals[j
            + mid + 1]);
    assert(ascending(left.keys@)) by {
        assert forall|a: int, b: int| 0 <= a < b < left.keys.len() implies lt(
            left.keys[a],
            left.keys[b],
        ) by {
            assert(lt(keys[a], keys[b]));
        }
    }
    assert(ascending(right.keys@)) by {
        assert forall|a: int, b: int| 0 <= a < b < right.keys.len() implies lt(
            right.keys[a],
            right.keys[b],
        ) by {
            assert(lt(keys[a + mid + 1], keys[b + mid + 1]));
        }
    }
    assert forall|j: int| 0 <= j < left.keys.len() implies above(lo, #[trigger] left.keys[j])
        && below(left.keys[j], Some(sk)) by {
        assert(left.keys[j] == keys[j]);
        assert(lt(keys[j], keys[mid]));
    }
    assert forall|j: int| 0 <= j < right.keys.len() implies above(
        Some(sk),
        #[trigger] right.keys[j],
    ) && below(right.keys[j], hi) by {
        assert(right.keys[j] == keys[j + mid + 1]);
        assert(lt(keys[mid], keys[j + mid + 1]));
    }
    assert(above(lo, keys[mid]) && below(keys[mid], hi));
    assert forall|x: K|
        joined(left, sk, sv, right, x) == put(#[trigger] before.lookup(x), x, k, v) by {
        lemma_rank(before.keys@, x);
        lemma_rank_insert(before.keys@, k, x);
        lemma_rank(keys, x);
        lemma_rank_split(keys, mid, x);
        lemma_rank(left.keys@, x);
        lemma_rank(right.keys@, x);
        let rx = rank(before.keys@, x);
        let r2 = rank(keys, x);
        // what the leaf with the pair in it, not yet split, holds for `x`
        let held = if among(keys, x) {
            Some(vals[r2])
        } else {
            None
        };
        assert(held == put(before.lookup(x), x, k, v)) by {
            if x == k {
            } else if lt(x, k) {
                if among(before.keys@, x) {
                    assert(rx < r);
                }
            } else {
                if among(before.keys@, x) {
                    assert(keys[rx + 1] == before.keys[rx]);
                }
            }
        }
        assert(joined(left, sk, sv, right, x) == held) by {
            if x == sk {
            } else if lt(x, sk) {
                assert(rank(left.keys@, x) == r2);
                if among(keys, x) {
                    assert(r2 < mid);
                    assert(left.lookup(x) == Some(left.vals[r2]));
                } else {
                    assert(left.lookup(x) is None);
                }
            } else {
                let r3 = r2 - (mid + 1);
                assert(rank(right.keys@, x) == r3);
                if among(keys, x) {
                    assert(right.keys[r3] == keys[r2]);
                    assert(right.lookup(x) == Some(right.vals[r3]));
                } else {
                    if r3 < right.keys.len() {
                        assert(right.keys[r3] == keys[r2]);
                    }
                    assert(right.lookup(x) is None);
                }
            }
        }
    }
}

/// An ordered subtree has the shape that a search relies on.
pub proof fn lemma_ordered_shaped<K: Ord, V>(node: Node<K, V>, lo: Option<K>, hi: Option<K>)
    requires
        node.ordered_in(lo, hi),
    ensures
        node.shaped(),
    decreases node,
{
    assert forall|i: int| 0 <= i < node.edges.len() implies (#[trigger] node.edges[i]).shaped() by {
        lemma_ordered_shaped(node.edges[i], node.edge_lo(lo, i), node.edge_hi(hi, i));
    }
}

} // verus!
