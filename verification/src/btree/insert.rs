//! Insertion of one entry under a node, with the splits that it causes.
//!
//! A split needs a new node. The nodes that an insertion needs are made
//! before the first change to the tree and are handed in as `spare`, so
//! that an insertion that has begun cannot fail.

use crate::btree::lemmas::{
    joined, lemma_child_replaced, lemma_child_split, lemma_leaf_entry_added, lemma_node_split,
    lemma_rank, lemma_routed_put, lemma_value_replaced, put,
};
use crate::btree::node::{rank, Node, CAPACITY, MAX_DEPTH, MIN_LEN, SPLIT_AT};
use crate::btree::order::{above, below, lemma_order, total_order};
use crate::btree::search::search_linear;
use vstd::prelude::*;

verus! {

/// Memory for a node could not be had.
#[derive(Clone, Copy, Debug, PartialEq, Eq)]
pub struct AllocationFailure;

/// What an insertion under a node did to that node.
pub enum Inserted<K, V> {
    /// The key was there: its value was replaced, and this is the old one.
    Replaced(V),
    /// The key was new, and the node still holds all its entries.
    Fit,
    /// The key was new, and the node was split: the entry that moves up,
    /// and the new sibling to the right of it.
    Split(K, V, Node<K, V>),
}

/// Moves the items of `src` from index `at` on to the end of `dst`.
pub fn move_tail<T>(src: &mut Vec<T>, at: usize, dst: &mut Vec<T>)
    requires
        at <= old(src).len(),
    ensures
        final(src)@ == old(src)@.subrange(0, at as int),
        final(dst)@ == old(dst)@ + old(src)@.subrange(at as int, old(src).len() as int),
{
    let ghost n = src.len() as int;
    while src.len() > at
        invariant
            at <= src.len() <= n,
            n == old(src).len(),
            src@.subrange(0, at as int) == old(src)@.subrange(0, at as int),
            dst@ + src@.subrange(at as int, src.len() as int) == old(dst)@ + old(src)@.subrange(
                at as int,
                n,
            ),
        decreases src.len(),
    {
        let ghost s0 = src@;
        let ghost d0 = dst@;
        let x = src.remove(at);
        dst.push(x);
        proof {
            assert(src@.subrange(0, at as int) =~= s0.subrange(0, at as int));
            assert(dst@ + src@.subrange(at as int, src.len() as int) =~= d0 + s0.subrange(
                at as int,
                s0.len() as int,
            ));
        }
    }
    proof {
        assert(src@ =~= src@.subrange(0, at as int));
        assert(dst@ =~= dst@ + src@.subrange(at as int, src.len() as int));
    }
}

impl<K: Ord, V> Node<K, V> {
    /// A node without entries, with room for those of a full node and one
    /// more.
    pub fn try_new(internal: bool) -> (r: Result<Self, AllocationFailure>)
        ensures
            r matches Ok(node) ==> node.blank(),
    {
        let mut keys: Vec<K> = Vec::new();
        let mut vals: Vec<V> = Vec::new();
        let mut edges: Vec<Node<K, V>> = Vec::new();
        if granted(keys.try_reserve(CAPACITY + 1)).is_err() {
            return Err(AllocationFailure);
        }
        if granted(vals.try_reserve(CAPACITY + 1)).is_err() {
            return Err(AllocationFailure);
        }
        if internal && granted(edges.try_reserve(CAPACITY + 2)).is_err() {
            return Err(AllocationFailure);
        }
        Ok(Node { keys, vals, edges })
    }

    /// Splits a node that holds one entry too many: the entries behind the
    /// one at `SPLIT_AT`, and the children behind them, go to `right`. The
    /// result is that entry and `right`.
    pub fn split(&mut self, right: Node<K, V>) -> (r: (K, V, Node<K, V>))
        requires
            old(self).keys.len() == CAPACITY + 1,
            old(self).vals.len() == CAPACITY + 1,
            old(self).edges.len() == 0 || old(self).edges.len() == CAPACITY + 2,
            right.blank(),
        ensures
            r.0 == old(self).keys[SPLIT_AT as int],
            r.1 == old(self).vals[SPLIT_AT as int],
            final(self).keys@ == old(self).keys@.subrange(0, SPLIT_AT as int),
            final(self).vals@ == old(self).vals@.subrange(0, SPLIT_AT as int),
            r.2.keys@ == old(self).keys@.subrange(SPLIT_AT + 1, CAPACITY + 1),
            r.2.vals@ == old(self).vals@.subrange(SPLIT_AT + 1, CAPACITY + 1),
            old(self).is_leaf() ==> final(self).is_leaf() && r.2.is_leaf(),
            !old(self).is_leaf() ==> final(self).edges@ == old(self).edges@.subrange(
                0,
                SPLIT_AT + 1,
            ) && r.2.edges@ == old(self).edges@.subrange(SPLIT_AT + 1, CAPACITY + 2),
    {
        let mut right = right;
        move_tail(&mut self.keys, SPLIT_AT + 1, &mut right.keys);
        move_tail(&mut self.vals, SPLIT_AT + 1, &mut right.vals);
        if self.edges.len() > 0 {
            move_tail(&mut self.edges, SPLIT_AT + 1, &mut right.edges);
        }
        let sk = self.keys.pop().unwrap();
        let sv = self.vals.pop().unwrap();
        proof {
            assert(self.keys@ =~= old(self).keys@.subrange(0, SPLIT_AT as int));
            assert(self.vals@ =~= old(self).vals@.subrange(0, SPLIT_AT as int));
            assert(right.keys@ =~= old(self).keys@.subrange(SPLIT_AT + 1, CAPACITY + 1));
            assert(right.vals@ =~= old(self).vals@.subrange(SPLIT_AT + 1, CAPACITY + 1));
            if !old(self).is_leaf() {
                assert(right.edges@ =~= old(self).edges@.subrange(SPLIT_AT + 1, CAPACITY + 2));
            }
        }
        (sk, sv, right)
    }

    /// Puts `value` under `key` into the subtree. `spare` holds the nodes
    /// that the splits take, which are taken from its end.
    pub fn insert(
        &mut self,
        key: K,
        value: V,
        spare: &mut Vec<Node<K, V>>,
        Ghost(lo): Ghost<Option<K>>,
        Ghost(hi): Ghost<Option<K>>,
    ) -> (r: Inserted<K, V>)
        requires
            total_order::<K>(),
            old(self).ordered_in(lo, hi),
            old(self).keys.len() <= CAPACITY,
            above(lo, key),
            below(key, hi),
            old(spare).len() >= old(self).splits(key),
            forall|i: int| 0 <= i < old(spare).len() ==> (#[trigger] old(spare)[i]).blank(),
        ensures
            final(spare)@ == old(spare)@.subrange(0, old(spare).len() - old(self).splits(key)),
            final(self).height() == old(self).height(),
            match r {
                Inserted::Replaced(prev) => {
                    &&& old(self).lookup(key) == Some(prev)
                    &&& !old(self).will_split(key)
                    &&& final(self).ordered_in(lo, hi)
                    &&& final(self).keys.len() == old(self).keys.len()
                    &&& forall|x: K| #[trigger]
                        final(self).lookup(x) == put(old(self).lookup(x), x, key, value)
                },
                Inserted::Fit => {
                    &&& old(self).lookup(key) is None
                    &&& !old(self).will_split(key)
                    &&& final(self).ordered_in(lo, hi)
                    &&& old(self).keys.len() <= final(self).keys.len() <= CAPACITY
                    &&& forall|x: K| #[trigger]
                        final(self).lookup(x) == put(old(self).lookup(x), x, key, value)
                },
                Inserted::Split(sk, sv, right) => {
                    &&& old(self).lookup(key) is None
                    &&& old(self).will_split(key)
                    &&& final(self).wf_in(lo, Some(sk), MIN_LEN as nat)
                    &&& right.wf_in(Some(sk), hi, MIN_LEN as nat)
                    &&& above(lo, sk)
                    &&& below(sk, hi)
                    &&& right.height() == old(self).height()
                    &&& forall|x: K|
                        joined(*final(self), sk, sv, right, x) == put(
                            #[trigger] old(self).lookup(x),
                            x,
                            key,
                            value,
                        )
                },
            },
        decreases *old(self),
    {
        let ghost before = *self;
        let ghost pool = spare@;
        proof {
            lemma_order::<K>();
            lemma_rank(self.keys@, key);
        }
        let (i, found) = search_linear(self, &key);
        if found {
            let mut v = value;
            core::mem::swap(&mut self.vals[i], &mut v);
            proof {
                lemma_value_replaced(before, *self, lo, hi, key, value);
                assert(spare@ =~= pool.subrange(0, pool.len() - 0));
            }
            return Inserted::Replaced(v);
        }
        if self.edges.len() == 0 {
            self.keys.insert(i, key);
            self.vals.insert(i, value);
            proof {
                lemma_leaf_entry_added(before, *self, lo, hi, key, value);
            }
        } else {
            let ghost clo = self.edge_lo(lo, i as int);
            let ghost chi = self.edge_hi(hi, i as int);
            let ghost child = self.edges[i as int];
            let ghost g = |x: K| put(child.lookup(x), x, key, value);
            let r = self.edges[i].insert(key, value, spare, Ghost(clo), Ghost(chi));
            match r {
                Inserted::Replaced(prev) => {
                    proof {
                        lemma_child_replaced(before, *self, lo, hi, i as int, g);
                        assert forall|x: K| #[trigger]
                            self.lookup(x) == put(before.lookup(x), x, key, value) by {
                            lemma_routed_put(before, key, value, x);
                        }
                        assert(spare@ =~= pool.subrange(0, pool.len() - before.splits(key)));
                    }
                    return Inserted::Replaced(prev);
                },
                Inserted::Fit => {
                    proof {
                        lemma_child_replaced(before, *self, lo, hi, i as int, g);
                        assert forall|x: K| #[trigger]
                            self.lookup(x) == put(before.lookup(x), x, key, value) by {
                            lemma_routed_put(before, key, value, x);
                        }
                        assert(spare@ =~= pool.subrange(0, pool.len() - before.splits(key)));
                    }
                    return Inserted::Fit;
                },
                Inserted::Split(sk, sv, right) => {
                    let ghost left = self.edges[i as int];
                    self.keys.insert(i, sk);
                    self.vals.insert(i, sv);
                    self.edges.insert(i + 1, right);
                    proof {
                        assert forall|x: K| #[trigger] joined(left, sk, sv, right, x) == g(x) by {
                            assert(joined(left, sk, sv, right, x) == put(
                                child.lookup(x),
                                x,
                                key,
                                value,
                            ));
                        }
                        lemma_child_split(
                            before,
                            *self,
                            lo,
                            hi,
                            i as int,
                            g,
                            left,
                            sk,
                            sv,
                            right,
                        );
                        assert forall|x: K| #[trigger]
                            self.lookup(x) == put(before.lookup(x), x, key, value) by {
                            lemma_routed_put(before, key, value, x);
                        }
                    }
                },
            }
        }
        if self.keys.len() <= CAPACITY {
            proof {
                assert(spare@ =~= pool.subrange(0, pool.len() - before.splits(key)));
            }
            return Inserted::Fit;
        }
        let ghost full = *self;
        let blank = spare.pop().unwrap();
        let (sk, sv, right) = self.split(blank);
        proof {
            lemma_node_split(full, *self, right, lo, hi);
            assert(spare@ =~= pool.subrange(0, pool.len() - before.splits(key)));
            assert forall|x: K|
                joined(*self, sk, sv, right, x) == put(
                    #[trigger] before.lookup(x),
                    x,
                    key,
                    value,
                ) by {
                assert(full.lookup(x) == put(before.lookup(x), x, key, value));
            }
        }
        Inserted::Split(sk, sv, right)
    }
}

impl<K: Ord, V> Node<K, V> {
    /// Counts the nodes that an insertion of `key` under this node would
    /// split, and tells whether this node is one of them and whether the
    /// subtree holds `key`.
    pub fn count_splits(
        &self,
        key: &K,
        Ghost(lo): Ghost<Option<K>>,
        Ghost(hi): Ghost<Option<K>>,
    ) -> (r: (usize, bool, bool))
        requires
            total_order::<K>(),
            self.ordered_in(lo, hi),
            self.height() < MAX_DEPTH,
        ensures
            r.0 == self.splits(*key),
            r.0 <= self.height() + 1,
            r.1 == self.will_split(*key),
            r.2 == (self.lookup(*key) is Some),
        decreases self,
    {
        proof {
            lemma_rank(self.keys@, *key);
        }
        let (i, found) = search_linear(self, key);
        if found {
            return (0, false, true);
        }
        let full = self.keys.len() >= CAPACITY;
        if self.edges.len() == 0 {
            return (if full { 1 } else { 0 }, full, false);
        }
        let (below, child_splits, present) = self.edges[i].count_splits(
            key,
            Ghost(self.edge_lo(lo, i as int)),
            Ghost(self.edge_hi(hi, i as int)),
        );
        let here = full && child_splits;
        (if here { below + 1 } else { below }, here, present)
    }
}

impl<K: Ord, V> Node<K, V> {
    /// The leaf that holds one entry, made of a node without entries.
    pub fn single(blank: Node<K, V>, key: K, value: V) -> (leaf: Node<K, V>)
        requires
            total_order::<K>(),
            blank.blank(),
        ensures
            leaf.wf_in(None, None, 1),
            leaf.height() == 0,
            forall|x: K| #[trigger] leaf.lookup(x) == put(None, x, key, value),
    {
        let mut leaf = blank;
        leaf.keys.push(key);
        leaf.vals.push(value);
        proof {
            lemma_order::<K>();
            assert(rank(leaf.keys@, key) == 0);
            assert forall|x: K| #[trigger] leaf.lookup(x) == put(None, x, key, value) by {
                lemma_rank(leaf.keys@, x);
            }
        }
        leaf
    }

    /// The node above the two parts of a node that was split, made of a node
    /// without entries: its one entry stands between the parts.
    pub fn join(blank: Node<K, V>, left: Node<K, V>, sk: K, sv: V, right: Node<K, V>) -> (top:
        Node<K, V>)
        requires
            total_order::<K>(),
            blank.blank(),
            left.wf_in(None, Some(sk), MIN_LEN as nat),
            right.wf_in(Some(sk), None, MIN_LEN as nat),
            left.height() == right.height(),
        ensures
            top.wf_in(None, None, 1),
            top.height() == left.height() + 1,
            forall|x: K| #[trigger] top.lookup(x) == joined(left, sk, sv, right, x),
    {
        let mut top = blank;
        top.keys.push(sk);
        top.vals.push(sv);
        top.edges.push(left);
        top.edges.push(right);
        proof {
            lemma_order::<K>();
            assert(top.edges[0] == left);
            assert(top.edges[1] == right);
            assert(top.edge_lo(None, 0) == None::<K>);
            assert(top.edge_hi(None, 0) == Some(sk));
            assert(top.edge_lo(None, 1) == Some(sk));
            assert(top.edge_hi(None, 1) == None::<K>);
            assert(top.ordered_in(None, None));
            assert forall|x: K| #[trigger] top.lookup(x) == joined(left, sk, sv, right, x) by {
                lemma_rank(top.keys@, x);
            }
        }
        top
    }
}

/// Makes `n` nodes without entries: the last for a leaf, the others for
/// internal nodes.
pub fn reserve_nodes<K: Ord, V>(n: usize) -> (r: Result<Vec<Node<K, V>>, AllocationFailure>)
    ensures
        r matches Ok(nodes) ==> nodes.len() == n && forall|i: int|
            0 <= i < n ==> (#[trigger] nodes[i]).blank(),
        n == 0 ==> r is Ok,
{
    let mut nodes: Vec<Node<K, V>> = Vec::new();
    if n > 0 && granted(nodes.try_reserve(n)).is_err() {
        return Err(AllocationFailure);
    }
    let mut i: usize = 0;
    while i < n
        invariant
            i <= n,
            nodes.len() == i,
            forall|j: int| 0 <= j < i ==> (#[trigger] nodes[j]).blank(),
        decreases n - i,
    {
        match Node::try_new(i + 1 < n) {
            Ok(node) => nodes.push(node),
            Err(e) => {
                return Err(e);
            },
        }
        i += 1;
    }
    Ok(nodes)
}

/// What an attempt to reserve room gave, as this library reports it: the
/// attempt failed where memory could not be had or the room asked for
/// cannot be counted.
pub fn granted(got: Result<(), std::collections::TryReserveError>) -> (r: Result<(), AllocationFailure>)
    ensures
        r is Ok <==> got is Ok,
{
    match got {
        Ok(()) => Ok(()),
        Err(_) => Err(AllocationFailure),
    }
}

} // verus!
