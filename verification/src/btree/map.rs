//! The map: a tree, its height and the number of its entries.

use crate::btree::cursor::sorted;
use crate::btree::inorder::{collect, least_count, lemma_count_upto, lemma_entries, pointees};
use crate::btree::batch::{reverse, RunEnd};
use crate::btree::runs::{
    after, fresh, keys_of, lemma_fresh_agrees, lemma_put_all_keeps, looks, put_all, ran,
    ran_apart, stacked,
};
use crate::btree::insert::{reserve_nodes, AllocationFailure, Inserted};
use crate::btree::lemmas::{joined, lemma_ordered_shaped};
use crate::btree::node::{Node, MAX_DEPTH};
use crate::btree::order::{lemma_order, lt, total_order};
use crate::btree::search::{answers, found_ref, search_tree, search_tree_many, SearchResult};
use vstd::arithmetic::power2::{lemma2_to64, lemma_pow2_adds, lemma_pow2_strictly_increases, pow2};
use vstd::prelude::*;

verus! {

/// An ordered map from `K` to `V`.
pub struct BTreeMap<K, V> {
    pub root: Option<Node<K, V>>,
    pub height: usize,
    pub length: usize,
}

impl<K: Ord, V> View for BTreeMap<K, V> {
    type V = Map<K, V>;

    /// The map holds for each key what a search from the root finds.
    open spec fn view(&self) -> Map<K, V> {
        Map::new(|k: K| self.lookup(k) is Some, |k: K| self.lookup(k).unwrap())
    }
}

impl<K: Ord, V> BTreeMap<K, V> {
    /// The value that a search from the root finds for `k`.
    pub open spec fn lookup(self, k: K) -> Option<V> {
        match self.root {
            None => None,
            Some(root) => root.lookup(k),
        }
    }

    /// The tree is a B-tree in the order of `K`, `height` is its height and
    /// `length` the number of its entries.
    pub open spec fn wf(self) -> bool {
        &&& total_order::<K>()
        &&& self@.dom().finite()
        &&& self.length == self@.dom().len()
        &&& match self.root {
            None => self.height == 0 && self.length == 0,
            Some(root) => root.wf_in(None, None, 1) && root.height() == self.height,
        }
    }

    /// Whether an insertion of `k` splits the root, so that the tree grows
    /// by one level.
    pub open spec fn grows(self, k: K) -> bool {
        match self.root {
            None => false,
            Some(root) => root.will_split(k),
        }
    }

    /// The number of nodes that an insertion of `k` makes: one for each
    /// node that it splits, one more for a new root where the root is
    /// split, and one for the first entry of an empty tree.
    pub open spec fn nodes_needed(self, k: K) -> nat {
        match self.root {
            None => 1,
            Some(root) => root.splits(k) + if root.will_split(k) {
                1nat
            } else {
                0nat
            },
        }
    }

    /// What a lookup of `k` gives: the value under `k`, if there is one.
    pub open spec fn found<'a>(self, k: K) -> Option<&'a V> {
        found_ref(self@.get(k))
    }

    /// What lookups of each of `keys` give, in the order of the keys.
    pub open spec fn found_each<'a>(self, keys: Seq<K>) -> Seq<Option<&'a V>> {
        Seq::new(keys.len(), |i: int| self.found(keys[i]))
    }

    /// The entries in ascending order of their keys.
    pub open spec fn entries(self) -> Seq<(K, V)> {
        match self.root {
            None => Seq::empty(),
            Some(root) => root.entries(),
        }
    }

    /// The entries in order are the entries of the map, each once, and
    /// their keys ascend.
    pub proof fn lemma_entries(self)
        requires
            self.wf(),
        ensures
            self.entries().len() == self@.len(),
            forall|a: int, b: int|
                0 <= a < b < self.entries().len() ==> lt(self.entries()[a].0, self.entries()[b].0),
            forall|i: int|
                0 <= i < self.entries().len() ==> self@.contains_pair(
                    (#[trigger] self.entries()[i]).0,
                    self.entries()[i].1,
                ),
            forall|k: K| #[trigger]
                self@.contains_key(k) ==> exists|i: int|
                    0 <= i < self.entries().len() && (#[trigger] self.entries()[i]).0 == k,
    {
        lemma_order::<K>();
        let e = self.entries();
        let keys = e.map_values(|p: (K, V)| p.0);
        match self.root {
            None => {
                assert(self@.dom() =~= Set::<K>::empty());
            },
            Some(root) => {
                lemma_entries(root, None, None);
                assert forall|k: K| #[trigger] self@.contains_key(k) implies exists|i: int|
                    0 <= i < e.len() && (#[trigger] e[i]).0 == k by {
                    assert(root.lookup(k) is Some);
                }
                assert forall|k: K| keys.to_set().contains(k) <==> self@.dom().contains(k) by {
                    if keys.to_set().contains(k) {
                        let i = choose|i: int| 0 <= i < keys.len() && keys[i] == k;
                        assert(root.lookup(e[i].0) == Some(e[i].1));
                    }
                    if self@.dom().contains(k) {
                        assert(self@.contains_key(k));
                        let i = choose|i: int| 0 <= i < e.len() && (#[trigger] e[i]).0 == k;
                        assert(keys[i] == k);
                    }
                }
                assert(keys.to_set() =~= self@.dom());
                assert forall|a: int, b: int| 0 <= a < b < keys.len() implies keys[a]
                    != keys[b] by {
                    assert(lt(e[a].0, e[b].0));
                }
                keys.unique_seq_to_set();
            },
        }
    }

    /// A well-formed tree is lower than `MAX_DEPTH`.
    pub proof fn lemma_height_bound(self)
        requires
            self.wf(),
        ensures
            self.height < MAX_DEPTH,
    {
        if self.height >= 1 {
            let root = self.root.unwrap();
            let h = (self.height - 1) as nat;
            self.lemma_entries();
            lemma_count_upto(root, None, None, root.edges.len() as int);
            assert(root.edges.len() * least_count(h) >= 2 * least_count(h)) by (nonlinear_arith)
                requires
                    root.edges.len() >= 2,
                    least_count(h) >= 0,
            ;
            lemma_pow2_adds(1, 2 * h + 2);
            lemma2_to64();
            assert(pow2(2 * h + 3) <= usize::MAX);
            if self.height >= MAX_DEPTH {
                if 2 * h + 3 > 64 {
                    lemma_pow2_strictly_increases(64, 2 * h + 3);
                }
            }
        }
    }

    /// The empty map.
    pub fn new() -> (map: Self)
        requires
            total_order::<K>(),
        ensures
            map.wf(),
            map@ == Map::<K, V>::empty(),
            map.height == 0,
            map.length == 0,
    {
        let map = BTreeMap { root: None, height: 0, length: 0 };
        proof {
            assert(map@ =~= Map::<K, V>::empty());
        }
        map
    }

    /// The number of entries.
    pub fn len(&self) -> (n: usize)
        requires
            self.wf(),
        ensures
            n == self@.len(),
    {
        self.length
    }

    /// The value under `key`.
    pub fn get(&self, key: &K) -> (r: Option<&V>)
        requires
            self.wf(),
        ensures
            r == self.found(*key),
    {
        match &self.root {
            None => None,
            Some(root) => {
                proof {
                    lemma_ordered_shaped(*root, None, None);
                }
                match search_tree(root, key) {
                    SearchResult::Found(handle) => Some(handle.into_kv().1),
                    SearchResult::GoDown(_) => None,
                }
            },
        }
    }

    /// Counts the nodes that an insertion of `key` makes, and tells whether
    /// the map holds `key`.
    pub fn probe(&self, key: &K) -> (r: (usize, bool))
        requires
            self.wf(),
        ensures
            r.0 == self.nodes_needed(*key),
            r.1 == self@.contains_key(*key),
    {
        proof {
            self.lemma_height_bound();
        }
        match &self.root {
            None => (1, false),
            Some(root) => {
                let (below, root_splits, present) = root.count_splits(
                    key,
                    Ghost(None),
                    Ghost(None),
                );
                (if root_splits { below + 1 } else { below }, present)
            },
        }
    }

    /// Puts `value` under `key`, with the nodes that this takes handed in.
    /// The result is the value that `key` had.
    pub fn insert_with(&mut self, key: K, value: V, spare: Vec<Node<K, V>>) -> (r: Option<V>)
        requires
            old(self).wf(),
            spare.len() >= old(self).nodes_needed(key),
            forall|i: int| 0 <= i < spare.len() ==> (#[trigger] spare[i]).blank(),
            old(self)@.contains_key(key) || old(self).length < usize::MAX,
        ensures
            final(self).wf(),
            final(self)@ == old(self)@.insert(key, value),
            r == old(self)@.get(key),
            final(self).height == old(self).height + if old(self).grows(key) {
                1int
            } else {
                0int
            },
    {
        let ghost before = *self;
        let mut spare = spare;
        proof {
            lemma_order::<K>();
            before.lemma_height_bound();
        }
        match self.root.take() {
            None => {
                let leaf = Node::single(spare.pop().unwrap(), key, value);
                self.root = Some(leaf);
                self.length = 1;
                proof {
                    assert(self@ =~= before@.insert(key, value));
                }
                None
            },
            Some(root) => {
                let ghost was = root;
                let mut root = root;
                let r = root.insert(key, value, &mut spare, Ghost(None), Ghost(None));
                match r {
                    Inserted::Replaced(prev) => {
                        self.root = Some(root);
                        proof {
                            assert(self@ =~= before@.insert(key, value));
                            assert(before@.dom().insert(key) =~= before@.dom());
                        }
                        Some(prev)
                    },
                    Inserted::Fit => {
                        self.root = Some(root);
                        self.length = self.length + 1;
                        proof {
                            assert(self@ =~= before@.insert(key, value));
                        }
                        None
                    },
                    Inserted::Split(sk, sv, right) => {
                        let top = Node::join(spare.pop().unwrap(), root, sk, sv, right);
                        self.root = Some(top);
                        self.height = self.height + 1;
                        self.length = self.length + 1;
                        proof {
                            assert(self@ =~= before@.insert(key, value));
                        }
                        None
                    },
                }
            },
        }
    }

    /// Puts `value` under `key`, with what an attempt to make the nodes for
    /// it gave. It fails where the attempt failed, and where the count of
    /// entries cannot grow; the map is then left as it was.
    pub fn insert_reserved(
        &mut self,
        key: K,
        value: V,
        reserved: Result<Vec<Node<K, V>>, AllocationFailure>,
    ) -> (r: Result<Option<V>, AllocationFailure>)
        requires
            old(self).wf(),
            reserved matches Ok(nodes) ==> nodes.len() >= old(self).nodes_needed(key) && forall|
                i: int,
            | 0 <= i < nodes.len() ==> (#[trigger] nodes[i]).blank(),
        ensures
            final(self).wf(),
            r is Ok <==> reserved is Ok && (old(self)@.contains_key(key) || old(self).length
                < usize::MAX),
            match r {
                Ok(prev) => {
                    &&& final(self)@ == old(self)@.insert(key, value)
                    &&& prev == old(self)@.get(key)
                    &&& final(self).height == old(self).height + if old(self).grows(key) {
                        1int
                    } else {
                        0int
                    }
                },
                Err(_) => *final(self) == *old(self),
            },
    {
        match reserved {
            Ok(spare) => {
                if self.length == usize::MAX && self.get(&key).is_none() {
                    return Err(AllocationFailure);
                }
                Ok(self.insert_with(key, value, spare))
            },
            Err(e) => Err(e),
        }
    }

    /// Puts `value` under `key`. The result is the value that `key` had.
    /// Where memory for a new node cannot be had, the map is left as it was.
    pub fn try_insert(&mut self, key: K, value: V) -> (r: Result<Option<V>, AllocationFailure>)
        requires
            old(self).wf(),
        ensures
            final(self).wf(),
            match r {
                Ok(prev) => {
                    &&& final(self)@ == old(self)@.insert(key, value)
                    &&& prev == old(self)@.get(key)
                    &&& final(self).height == old(self).height + if old(self).grows(key) {
                        1int
                    } else {
                        0int
                    }
                },
                Err(_) => *final(self) == *old(self),
            },
            old(self).nodes_needed(key) == 0 && (old(self)@.contains_key(key) || old(self).length
                < usize::MAX) ==> r is Ok,
    {
        let (needed, _) = self.probe(&key);
        let reserved = if needed == 0 {
            Ok(Vec::new())
        } else {
            reserve_nodes(needed)
        };
        self.insert_reserved(key, value, reserved)
    }

    /// The entries in ascending order of their keys.
    pub fn iter(&self) -> (r: Vec<(&K, &V)>)
        requires
            self.wf(),
        ensures
            pointees(r@) == self.entries(),
            r.len() == self@.len(),
            forall|a: int, b: int| 0 <= a < b < r.len() ==> lt(*r[a].0, *r[b].0),
            forall|i: int| 0 <= i < r.len() ==> self@.contains_pair(*(#[trigger] r[i]).0, *r[i].1),
            forall|k: K| #[trigger]
                self@.contains_key(k) ==> exists|i: int|
                    0 <= i < r.len() && *(#[trigger] r[i]).0 == k,
    {
        let mut out: Vec<(&K, &V)> = Vec::new();
        match &self.root {
            None => {},
            Some(root) => {
                proof {
                    lemma_ordered_shaped(*root, None, None);
                }
                collect(root, &mut out);
            },
        }
        proof {
            assert(pointees(out@) =~= self.entries());
            self.lemma_entries();
            let e = self.entries();
            assert(out.len() == e.len());
            assert forall|i: int| 0 <= i < out.len() implies (*(#[trigger] out[i]).0, *out[i].1)
                == e[i] by {
                assert(pointees(out@)[i] == e[i]);
            }
            assert forall|a: int, b: int| 0 <= a < b < out.len() implies lt(
                *out[a].0,
                *out[b].0,
            ) by {
                assert(lt(e[a].0, e[b].0));
            }
            assert forall|i: int| 0 <= i < out.len() implies self@.contains_pair(
                *(#[trigger] out[i]).0,
                *out[i].1,
            ) by {
                assert(self@.contains_pair(e[i].0, e[i].1));
            }
            assert forall|k: K| #[trigger] self@.contains_key(k) implies exists|i: int|
                0 <= i < out.len() && *(#[trigger] out[i]).0 == k by {
                let i = choose|i: int| 0 <= i < e.len() && (#[trigger] e[i]).0 == k;
                assert(*out[i].0 == k);
            }
        }
        out
    }

    /// Looks up each of `keys`, which come in ascending order, and appends
    /// what it finds to `out`.
    pub fn get_many<'a>(&'a self, keys: &[K], out: &mut Vec<Option<&'a V>>)
        requires
            self.wf(),
            sorted(keys@),
        ensures
            final(out)@ == old(out)@ + self.found_each(keys@),
    {
        let ghost out0 = out@;
        let ghost want = self.found_each(keys@);
        match &self.root {
            None => {
                let mut i: usize = 0;
                while i < keys.len()
                    invariant
                        i <= keys.len(),
                        self.root is None,
                        out@ == out0 + want.subrange(0, i as int),
                        want == self.found_each(keys@),
                    decreases keys.len() - i,
                {
                    out.push(None);
                    proof {
                        assert(out@ =~= out0 + want.subrange(0, i + 1));
                    }
                    i += 1;
                }
                proof {
                    assert(want.subrange(0, keys.len() as int) =~= want);
                }
            },
            Some(root) => {
                proof {
                    self.lemma_height_bound();
                }
                search_tree_many(root, keys, out);
                proof {
                    assert(answers(*root, keys@) =~= want);
                }
            },
        }
    }

    /// Puts each of `pairs`, whose keys come in ascending order, into the
    /// map, in their order, as `try_insert` does; of two pairs with one key
    /// the later one stays. It fails only at a pair with a new key that
    /// needs a node which cannot be had, or for which the count of entries
    /// cannot grow: the pairs before that one are then in the map and the
    /// others are not.
    pub fn try_insert_many(&mut self, pairs: Vec<(K, V)>) -> (r: Result<(), AllocationFailure>)
        requires
            old(self).wf(),
            sorted(keys_of(pairs@)),
        ensures
            final(self).wf(),
            r is Ok ==> final(self)@ == put_all(old(self)@, pairs@),
            r is Err ==> exists|n: int|
                0 <= n < pairs.len() && final(self)@ == put_all(
                    old(self)@,
                    #[trigger] pairs@.subrange(0, n),
                ) && !final(self)@.contains_key(pairs[n].0) && (final(self).nodes_needed(
                    pairs[n].0,
                ) > 0 || final(self).length == usize::MAX) && (n == 0 ==> old(
                    self,
                ).nodes_needed(pairs[0].0) > 0 || old(self).length == usize::MAX),
            (forall|i: int| 0 <= i < pairs.len() ==> old(self)@.contains_key(pairs[i].0))
                ==> r is Ok,
    {
        let ghost all = pairs@;
        let ghost first = self@;
        proof {
            assert(all.subrange(0, 0) =~= Seq::<(K, V)>::empty());
        }
        let mut pending = pairs;
        reverse(&mut pending);
        let mut spare: Vec<Node<K, V>> = Vec::new();
        while pending.len() > 0
            invariant
                self.wf(),
                first == old(self)@,
                all == pairs@,
                sorted(keys_of(all)),
                stacked(pending@, all),
                pending.len() == all.len() ==> *self == *old(self),
                spare.len() == 0,
                self@ == put_all(first, all.subrange(0, all.len() - pending.len())),
            decreases pending.len(),
        {
            let ghost before = *self;
            let ghost p = all.len() - pending.len();
            proof {
                lemma_order::<K>();
                before.lemma_height_bound();
                assert(pending[pending.len() - 1] == all[p]);
            }
            match self.root.take() {
                None => {
                    let reserved = reserve_nodes(1);
                    let (key, value) = pending.pop().unwrap();
                    proof {
                        assert(*self == before);
                    }
                    match self.insert_reserved(key, value, reserved) {
                        Ok(_) => {
                            proof {
                                assert(all.subrange(0, p + 1).drop_last() =~= all.subrange(0, p));
                            }
                        },
                        Err(e) => {
                            proof {
                                if first.contains_key(all[p].0) {
                                    lemma_put_all_keeps(first, all.subrange(0, p), all[p].0);
                                }
                            }
                            return Err(e);
                        },
                    }
                },
                Some(root) => {
                    let ghost was = root;
                    let mut root = root;
                    let r = root.insert_run(
                        &mut pending,
                        None,
                        &mut spare,
                        &mut self.length,
                        1,
                        Ghost(None),
                        Ghost(None),
                        Ghost(all),
                    );
                    let ghost end = all.len() - pending.len();
                    match r {
                        RunEnd::Done => {
                            self.root = Some(root);
                            proof {
                                reveal(ran);
                                lemma_put_all_ran(first, all, p, end, before, *self, looks(was));
                            }
                        },
                        RunEnd::Failed => {
                            self.root = Some(root);
                            proof {
                                reveal(ran);
                                lemma_put_all_ran(first, all, p, end, before, *self, looks(was));
                                assert(self@ == put_all(first, all.subrange(0, end)));
                                assert(self.lookup(all[end].0) is None);
                                if first.contains_key(all[end].0) {
                                    lemma_put_all_keeps(first, all.subrange(0, end), all[end].0);
                                }
                            }
                            return Err(AllocationFailure);
                        },
                        RunEnd::Split(sk, sv, right) => {
                            let ghost left = root;
                            proof {
                                reveal(ran_apart);
                            }
                            let top = Node::join(spare.pop().unwrap(), root, sk, sv, right);
                            self.root = Some(top);
                            self.height = self.height + 1;
                            proof {
                                assert forall|x: K| #[trigger]
                                    top.lookup(x) == after(was.lookup(x), all, p, end, x) by {
                                    assert(joined(left, sk, sv, right, x) == after(
                                        was.lookup(x),
                                        all,
                                        p,
                                        end,
                                        x,
                                    ));
                                }
                                lemma_put_all_ran(first, all, p, end, before, *self, looks(was));
                            }
                        },
                    }
                },
            }
        }
        proof {
            assert(all.subrange(0, all.len() as int) =~= all);
        }
        Ok(())
    }
}

/// What a map became by the pairs from `p` up to `end`, where the tree
/// under it did.
pub proof fn lemma_put_all_ran<K: Ord, V>(
    first: Map<K, V>,
    pairs: Seq<(K, V)>,
    p: int,
    end: int,
    before: BTreeMap<K, V>,
    now: BTreeMap<K, V>,
    look: spec_fn(K) -> Option<V>,
)
    requires
        0 <= p <= end <= pairs.len(),
        before@.dom().finite(),
        before.length == before@.dom().len(),
        before@ == put_all(first, pairs.subrange(0, p)),
        forall|x: K| #[trigger] look(x) == before.lookup(x),
        forall|x: K| #[trigger] now.lookup(x) == after(before.lookup(x), pairs, p, end, x),
        now.length == before.length + fresh(look, pairs, p, end),
    ensures
        now@ == put_all(first, pairs.subrange(0, end)),
        now@.dom().finite(),
        now.length == now@.dom().len(),
{
    let goal = put_all(first, pairs.subrange(0, end));
    lemma_put_all_mid(first, pairs, p, end, before);
    lemma_fresh_agrees(look, |x: K| before.lookup(x), pairs, p, end);
    assert forall|x: K| now@.get(x) == goal.get(x) by {
        assert(now.lookup(x) == after(before.lookup(x), pairs, p, end, x));
    }
    assert forall|x: K| now@.dom().contains(x) <==> goal.dom().contains(x) by {
        assert(now@.get(x) == goal.get(x));
    }
    assert forall|x: K| now@.dom().contains(x) implies now@[x] == goal[x] by {
        assert(now@.get(x) == goal.get(x));
    }
    assert(now@ =~= goal);
}

/// What a map holds and how many keys it has after the pairs from `p` up
/// to `end`, said without a tree.
pub proof fn lemma_put_all_mid<K: Ord, V>(
    first: Map<K, V>,
    pairs: Seq<(K, V)>,
    p: int,
    end: int,
    before: BTreeMap<K, V>,
)
    requires
        0 <= p <= end <= pairs.len(),
        before@.dom().finite(),
        before@ == put_all(first, pairs.subrange(0, p)),
    ensures
        put_all(first, pairs.subrange(0, end)).dom().finite(),
        put_all(first, pairs.subrange(0, end)).dom().len() == before@.dom().len() + fresh(
            |x: K| before.lookup(x),
            pairs,
            p,
            end,
        ),
        forall|x: K|
            (#[trigger] put_all(first, pairs.subrange(0, end)).get(x)) == after(
                before.lookup(x),
                pairs,
                p,
                end,
                x,
            ),
    decreases end - p,
{
    if end == p {
        assert forall|x: K|
            (#[trigger] put_all(first, pairs.subrange(0, end)).get(x)) == before.lookup(x) by {
            assert(before@.get(x) == before.lookup(x));
        }
    } else {
        lemma_put_all_mid(first, pairs, p, end - 1, before);
        let k = pairs[end - 1].0;
        let v = pairs[end - 1].1;
        let mid_map = put_all(first, pairs.subrange(0, end - 1));
        assert(pairs.subrange(0, end).drop_last() =~= pairs.subrange(0, end - 1));
        assert(pairs.subrange(0, end).last() == pairs[end - 1]);
        assert(put_all(first, pairs.subrange(0, end)) == mid_map.insert(k, v));
        assert(mid_map.get(k) == after(before.lookup(k), pairs, p, end - 1, k));
        assert forall|x: K|
            (#[trigger] put_all(first, pairs.subrange(0, end)).get(x)) == after(
                before.lookup(x),
                pairs,
                p,
                end,
                x,
            ) by {
            assert(mid_map.get(x) == after(before.lookup(x), pairs, p, end - 1, x));
        }
    }
}

} // verus!
