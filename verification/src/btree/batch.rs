//! Insertion of a batch of pairs whose keys come in ascending order.
//!
//! The batch is put into the tree in one sweep. A run puts pairs into one
//! subtree for as long as their keys are below the upper bound of the
//! subtree, and starts a run in a child for each stretch of keys that
//! belong under one edge. Back from a child, the scan of the node goes on
//! where it stopped: keys that come later stand further right. The bounds
//! that a batch search keeps on a stack are here the upper bounds of the
//! runs that have not ended.

use crate::btree::cursor::sorted;
use crate::btree::insert::{reserve_nodes, AllocationFailure};
use crate::btree::lemmas::{burst_of, lemma_rank, lemma_rank_resume};
use crate::btree::node::{Node, CAPACITY, MAX_DEPTH};
use crate::btree::order::{above, below, compare, le, lemma_order, lt, total_order, Rel};
use crate::btree::runs::{
    keys_of, lemma_next_above, lemma_ran_added, lemma_ran_apart, lemma_ran_below,
    lemma_ran_below_split, lemma_ran_burst, lemma_ran_none, lemma_ran_replaced, ran, ran_apart,
    stacked,
};
use crate::btree::search::search_linear_at;
use vstd::prelude::*;

verus! {

/// Tells whether no key of the pairs is before the one in front of it.
pub fn pairs_sorted<K: Ord, V>(pairs: &[(K, V)]) -> (r: bool)
    requires
        total_order::<K>(),
    ensures
        r == sorted(keys_of(pairs@)),
{
    let mut i: usize = 1;
    while i < pairs.len()
        invariant
            total_order::<K>(),
            1 <= i,
            forall|a: int, b: int|
                0 <= a <= b < i && b < pairs.len() ==> le(pairs[a].0, pairs[b].0),
        decreases pairs.len() - i,
    {
        proof {
            lemma_order::<K>();
        }
        match compare(&pairs[i - 1].0, &pairs[i].0) {
            Rel::Greater => {
                proof {
                    assert(!le(keys_of(pairs@)[i - 1], keys_of(pairs@)[i as int]));
                }
                return false;
            },
            _ => {},
        }
        proof {
            assert forall|a: int, b: int| 0 <= a <= b < i + 1 && b < pairs.len() implies le(
                pairs[a].0,
                pairs[b].0,
            ) by {
                if b == i && a < i {
                    assert(le(pairs[a].0, pairs[i - 1].0));
                }
            }
        }
        i += 1;
    }
    proof {
        assert forall|a: int, b: int| 0 <= a <= b < pairs.len() implies le(
            keys_of(pairs@)[a],
            keys_of(pairs@)[b],
        ) by {
            assert(le(pairs[a].0, pairs[b].0));
        }
    }
    true
}

/// How a run ended.
pub enum RunEnd<K, V> {
    /// No pair is left, or the key of the next one is not below the upper
    /// bound of the subtree.
    Done,
    /// The pair that was put last split the root of the subtree: the entry
    /// that moves up, and the new sibling to the right of it.
    Split(K, V, Node<K, V>),
    /// The next pair has a new key, and it needs a node that could not be
    /// had or the count of entries cannot grow. It was not put.
    Failed,
}

impl<K: Ord, V> Node<K, V> {
    /// Puts the pair at the end of `pending` into this full leaf at index
    /// `i` and splits the leaf, with what an attempt to make the nodes for
    /// the splits gave. It fails exactly where the attempt failed; the
    /// leaf, the pairs and the count are then as they were. The result is
    /// the entry that moves up, the new sibling to the right of it, and the
    /// nodes that are left for the splits further up.
    pub fn put_reserved(
        &mut self,
        i: usize,
        pending: &mut Vec<(K, V)>,
        length: &mut usize,
        reserved: Result<Vec<Node<K, V>>, AllocationFailure>,
    ) -> (r: Result<(K, V, Node<K, V>, Vec<Node<K, V>>), AllocationFailure>)
        requires
            old(self).keys.len() == CAPACITY,
            old(self).vals.len() == CAPACITY,
            old(self).edges.len() == 0,
            i <= CAPACITY,
            old(pending).len() > 0,
            *old(length) < usize::MAX,
            reserved matches Ok(nodes) ==> nodes.len() > 0 && nodes@.last().blank(),
        ensures
            r is Ok <==> reserved is Ok,
            match r {
                Ok((sk, sv, right, rest)) => {
                    &&& burst_of(
                        *old(self),
                        old(pending)@.last(),
                        i as int,
                        *final(self),
                        sk,
                        sv,
                        right,
                    )
                    &&& final(pending)@ == old(pending)@.drop_last()
                    &&& *final(length) == *old(length) + 1
                    &&& reserved matches Ok(nodes) && rest@ == nodes@.drop_last()
                },
                Err(_) => {
                    &&& *final(self) == *old(self)
                    &&& *final(pending) == *old(pending)
                    &&& *final(length) == *old(length)
                },
            },
    {
        match reserved {
            Ok(nodes) => {
                let mut rest = nodes;
                let blank = rest.pop().unwrap();
                let (key, value) = pending.pop().unwrap();
                self.keys.insert(i, key);
                self.vals.insert(i, value);
                *length = *length + 1;
                let (sk, sv, right) = self.split(blank);
                Ok((sk, sv, right, rest))
            },
            Err(e) => Err(e),
        }
    }

    /// Puts the pairs at the end of `pending` into the subtree, from the
    /// last one on, for as long as their keys are below `upper`. It stops
    /// early where a pair splits this node or needs a node that cannot be
    /// had.
    ///
    /// `length` counts the entries of the tree. `full_above` is the number
    /// of nodes that a split of this node goes on to: the full nodes from
    /// the parent upwards without a gap, and the new root where all are
    /// full. With a split, `spare` holds these nodes.
    pub fn insert_run(
        &mut self,
        pending: &mut Vec<(K, V)>,
        upper: Option<&K>,
        spare: &mut Vec<Node<K, V>>,
        length: &mut usize,
        full_above: usize,
        Ghost(lo): Ghost<Option<K>>,
        Ghost(hi): Ghost<Option<K>>,
        Ghost(pairs): Ghost<Seq<(K, V)>>,
    ) -> (r: RunEnd<K, V>)
        requires
            total_order::<K>(),
            sorted(keys_of(pairs)),
            old(self).ordered_in(lo, hi),
            old(self).keys.len() <= CAPACITY,
            full_above + old(self).height() <= MAX_DEPTH + 1,
            stacked(old(pending)@, pairs),
            old(pending).len() > 0,
            above(lo, pairs[pairs.len() - old(pending).len()].0),
            below(pairs[pairs.len() - old(pending).len()].0, hi),
            match upper {
                Some(h) => hi == Some(*h),
                None => hi is None,
            },
            old(spare).len() == 0,
        ensures
            stacked(final(pending)@, pairs),
            final(pending).len() <= old(pending).len(),
            forall|i: int| 0 <= i < final(spare).len() ==> (#[trigger] final(spare)[i]).blank(),
            match r {
                RunEnd::Done => {
                    &&& ran(
                        *old(self),
                        *final(self),
                        lo,
                        hi,
                        pairs,
                        pairs.len() - old(pending).len(),
                        pairs.len() - final(pending).len(),
                        *old(length) as int,
                        *final(length) as int,
                    )
                    &&& final(self).keys.len() <= CAPACITY
                    &&& final(spare).len() == 0
                    &&& final(pending).len() < old(pending).len()
                    &&& final(pending).len() > 0 ==> !below(
                        pairs[pairs.len() - final(pending).len()].0,
                        hi,
                    )
                },
                RunEnd::Failed => {
                    &&& ran(
                        *old(self),
                        *final(self),
                        lo,
                        hi,
                        pairs,
                        pairs.len() - old(pending).len(),
                        pairs.len() - final(pending).len(),
                        *old(length) as int,
                        *final(length) as int,
                    )
                    &&& final(self).keys.len() <= CAPACITY
                    &&& final(spare).len() == 0
                    &&& final(pending).len() > 0
                    &&& above(lo, pairs[pairs.len() - final(pending).len()].0)
                    &&& below(pairs[pairs.len() - final(pending).len()].0, hi)
                    &&& final(self).lookup(pairs[pairs.len() - final(pending).len()].0) is None
                    &&& (final(self).splits(pairs[pairs.len() - final(pending).len()].0) > 0
                        || *final(length) == usize::MAX)
                    &&& final(pending).len() == old(pending).len() ==> old(self).splits(
                        pairs[pairs.len() - old(pending).len()].0,
                    ) > 0 || *old(length) == usize::MAX
                },
                RunEnd::Split(sk, sv, right) => {
                    &&& ran_apart(
                        *old(self),
                        *final(self),
                        sk,
                        sv,
                        right,
                        lo,
                        hi,
                        pairs,
                        pairs.len() - old(pending).len(),
                        pairs.len() - final(pending).len(),
                        *old(length) as int,
                        *final(length) as int,
                    )
                    &&& final(spare).len() == full_above
                    &&& final(pending).len() < old(pending).len()
                },
            },
        decreases old(self).height(),
    {
        let ghost start = *self;
        let ghost n = pairs.len() as int;
        let ghost begin = n - pending.len();
        let ghost len0 = *length as int;
        let mut idx: usize = 0;
        proof {
            lemma_ran_none(start, lo, hi, pairs, begin, len0);
        }
        loop
            invariant
                total_order::<K>(),
                sorted(keys_of(pairs)),
                n == pairs.len(),
                start == *old(self),
                len0 == *old(length),
                begin == n - old(pending).len(),
                full_above + start.height() <= MAX_DEPTH + 1,
                match upper {
                    Some(h) => hi == Some(*h),
                    None => hi is None,
                },
                stacked(pending@, pairs),
                0 < pending.len() <= old(pending).len(),
                pending.len() == old(pending).len() ==> *self == start && *length == len0,
                ran(start, *self, lo, hi, pairs, begin, n - pending.len(), len0, *length as int),
                self.ordered_in(lo, hi),
                self.height() == start.height(),
                self.keys.len() <= CAPACITY,
                spare.len() == 0,
                above(lo, pairs[n - pending.len()].0),
                below(pairs[n - pending.len()].0, hi),
                idx <= self.keys.len(),
                forall|j: int|
                    0 <= j < idx ==> lt(#[trigger] self.keys[j], pairs[n - pending.len()].0),
            decreases pending.len(),
        {
            let ghost now = *self;
            let ghost p = n - pending.len();
            let ghost len = *length as int;
            let ghost key = pairs[p].0;
            let ghost value = pairs[p].1;
            proof {
                lemma_rank(self.keys@, key);
                lemma_rank_resume(self.keys@, key, idx as int);
                assert(pending[pending.len() - 1] == pairs[p]);
            }
            let (i, found) = search_linear_at(self, &pending[pending.len() - 1].0, idx);
            idx = i;
            if found {
                let (_, value) = pending.pop().unwrap();
                let mut v = value;
                core::mem::swap(&mut self.vals[i], &mut v);
                proof {
                    lemma_ran_replaced(start, now, *self, lo, hi, pairs, begin, p, len0, len);
                }
            } else if self.edges.len() == 0 {
                if *length == usize::MAX {
                    return RunEnd::Failed;
                }
                if self.keys.len() == CAPACITY {
                    let reserved = reserve_nodes(full_above + 1);
                    match self.put_reserved(i, pending, length, reserved) {
                        Ok((sk, sv, right, rest)) => {
                            *spare = rest;
                            proof {
                                lemma_ran_burst(
                                    start,
                                    now,
                                    *self,
                                    sk,
                                    sv,
                                    right,
                                    lo,
                                    hi,
                                    pairs,
                                    begin,
                                    p,
                                    len0,
                                    len,
                                );
                            }
                            return RunEnd::Split(sk, sv, right);
                        },
                        Err(_) => {
                            return RunEnd::Failed;
                        },
                    }
                }
                let (key, value) = pending.pop().unwrap();
                self.keys.insert(i, key);
                self.vals.insert(i, value);
                *length = *length + 1;
                proof {
                    lemma_ran_added(start, now, *self, lo, hi, pairs, begin, p, len0, len);
                }
            } else {
                let ghost clo = self.edge_lo(lo, i as int);
                let ghost chi = self.edge_hi(hi, i as int);
                let below_full = if self.keys.len() == CAPACITY {
                    full_above + 1
                } else {
                    0
                };
                let bound = if i < self.keys.len() {
                    Some(&self.keys[i])
                } else {
                    upper
                };
                proof {
                    assert(now.edges[i as int].height() + 1 == now.height());
                    assert(above(clo, key) && below(key, chi)) by {
                        lemma_order::<K>();
                    }
                }
                let r = self.edges[i].insert_run(
                    pending,
                    bound,
                    spare,
                    length,
                    below_full,
                    Ghost(clo),
                    Ghost(chi),
                    Ghost(pairs),
                );
                let ghost end = n - pending.len();
                match r {
                    RunEnd::Done => {
                        proof {
                            lemma_ran_below(
                                start,
                                now,
                                *self,
                                lo,
                                hi,
                                pairs,
                                begin,
                                p,
                                end,
                                len0,
                                len,
                                *length as int,
                                i as int,
                            );
                        }
                    },
                    RunEnd::Failed => {
                        proof {
                            lemma_ran_below(
                                start,
                                now,
                                *self,
                                lo,
                                hi,
                                pairs,
                                begin,
                                p,
                                end,
                                len0,
                                len,
                                *length as int,
                                i as int,
                            );
                        }
                        return RunEnd::Failed;
                    },
                    RunEnd::Split(sk, sv, right) => {
                        let ghost left = self.edges[i as int];
                        self.keys.insert(i, sk);
                        self.vals.insert(i, sv);
                        self.edges.insert(i + 1, right);
                        proof {
                            lemma_ran_below_split(
                                start,
                                now,
                                *self,
                                lo,
                                hi,
                                pairs,
                                begin,
                                p,
                                end,
                                len0,
                                len,
                                *length as int,
                                i as int,
                                left,
                                sk,
                                sv,
                                right,
                            );
                        }
                        if self.keys.len() > CAPACITY {
                            let ghost over = *self;
                            let blank = spare.pop().unwrap();
                            let (sk, sv, right) = self.split(blank);
                            proof {
                                lemma_ran_apart(
                                    start,
                                    over,
                                    *self,
                                    right,
                                    lo,
                                    hi,
                                    pairs,
                                    begin,
                                    end,
                                    len0,
                                    *length as int,
                                );
                            }
                            return RunEnd::Split(sk, sv, right);
                        }
                    },
                }
            }
            if pending.len() == 0 {
                return RunEnd::Done;
            }
            let ghost q = n - pending.len();
            proof {
                assert(pending[pending.len() - 1] == pairs[q]);
                lemma_next_above(lo, pairs, p, q);
                assert forall|j: int| 0 <= j < idx implies lt(
                    #[trigger] self.keys[j],
                    pairs[q].0,
                ) by {
                    lemma_order::<K>();
                    assert(self.keys[j] == now.keys[j]);
                    assert(lt(now.keys[j], key));
                }
            }
            let fits = match upper {
                Some(h) => match compare(&pending[pending.len() - 1].0, h) {
                    Rel::Less => true,
                    _ => false,
                },
                None => true,
            };
            if !fits {
                return RunEnd::Done;
            }
        }
    }
}

/// Turns the order of the items round, in place.
pub fn reverse<T>(items: &mut Vec<T>)
    ensures
        final(items).len() == old(items).len(),
        forall|j: int|
            0 <= j < old(items).len() ==> #[trigger] final(items)[j] == old(items)[old(
                items,
            ).len() - 1 - j],
{
    let ghost all = items@;
    let mut held = match items.pop() {
        Some(last) => last,
        None => {
            return ;
        },
    };
    let m = items.len();
    let mut i: usize = 0;
    while i < m / 2
        invariant
            m == items.len(),
            m + 1 == all.len(),
            held == all[m as int],
            i <= m / 2,
            forall|t: int| 0 <= t < i ==> #[trigger] items[t] == all[m - 1 - t],
            forall|t: int| m - i <= t < m ==> #[trigger] items[t] == all[m - 1 - t],
            forall|t: int| i <= t < m - i ==> #[trigger] items[t] == all[t],
        decreases m - i,
    {
        let j = m - 1 - i;
        core::mem::swap(&mut items[i], &mut held);
        core::mem::swap(&mut items[j], &mut held);
        core::mem::swap(&mut items[i], &mut held);
        i += 1;
    }
    items.insert(0, held);
}

} // verus!
