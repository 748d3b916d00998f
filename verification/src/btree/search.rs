//! Searching a node and a tree for one key, and a tree for many keys in
//! ascending order.

use crate::btree::cursor::{
    cursor_ok, lemma_back, lemma_down_last, lemma_down_marked, lemma_next,
    lemma_start, lemma_stay, lemma_trail_grows, sorted,
};
use crate::btree::node::{rank, rank_from, ForceResult, Handle, Node, Slot, MAX_DEPTH};
use crate::btree::order::{below, compare, le, lemma_order, lt, total_order, Rel};
use crate::btree::stack::{stack_items, stack_new, stack_pop, stack_push};
use vstd::prelude::*;

verus! {

/// Where a search ended: at the entry with the key, or at the gap through
/// which a search for the key goes on.
pub enum SearchResult<'a, K, V> {
    Found(Handle<'a, K, V>),
    GoDown(Handle<'a, K, V>),
}

/// Scans all keys of `node` for `key`.
pub fn search_linear<K: Ord, V>(node: &Node<K, V>, key: &K) -> (r: (usize, bool))
    requires
        total_order::<K>(),
    ensures
        r.0 == rank(node.keys@, *key),
        r.0 <= node.keys.len(),
        forall|j: int| 0 <= j < r.0 ==> lt(#[trigger] node.keys[j], *key),
        r.0 < node.keys.len() ==> !lt(node.keys[r.0 as int], *key),
        r.1 <==> r.0 < node.keys.len() && node.keys[r.0 as int] == *key,
{
    search_linear_at(node, key, 0)
}

/// Scans the keys of `node` from `start` on for `key`.
pub fn search_linear_at<K: Ord, V>(node: &Node<K, V>, key: &K, start: usize) -> (r: (
    usize,
    bool,
))
    requires
        total_order::<K>(),
        start <= node.keys.len(),
    ensures
        r.0 == rank_from(node.keys@, *key, start as int),
        start <= r.0 <= node.keys.len(),
        forall|j: int| start <= j < r.0 ==> lt(#[trigger] node.keys[j], *key),
        r.0 < node.keys.len() ==> !lt(node.keys[r.0 as int], *key),
        r.1 <==> r.0 < node.keys.len() && node.keys[r.0 as int] == *key,
{
    let n = node.keys.len();
    let mut i: usize = start;
    while i < n
        invariant
            total_order::<K>(),
            n == node.keys.len(),
            start <= i <= n,
            forall|j: int| start <= j < i ==> lt(#[trigger] node.keys[j], *key),
            rank_from(node.keys@, *key, start as int) == rank_from(node.keys@, *key, i as int),
        decreases n - i,
    {
        proof {
            lemma_order::<K>();
        }
        match compare(key, &node.keys[i]) {
            Rel::Greater => {},
            Rel::Equal => {
                return (i, true);
            },
            Rel::Less => {
                return (i, false);
            },
        }
        i += 1;
    }
    (n, false)
}

/// Searches one node. The result is its entry with `key`, or the gap
/// through which a search for `key` goes on.
pub fn search_node<'a, K: Ord, V>(node: &'a Node<K, V>, key: &K) -> (r: SearchResult<'a, K, V>)
    requires
        total_order::<K>(),
        node.vals.len() == node.keys.len(),
    ensures
        found_at(r, node, rank(node.keys@, *key), *key),
{
    match search_linear(node, key) {
        (idx, true) => SearchResult::Found(Handle::new_kv(node, idx)),
        (idx, false) => SearchResult::GoDown(Handle::new_edge(node, idx)),
    }
}

/// Searches one node from a gap on.
pub fn search_node_at<'a, K: Ord, V>(handle: Handle<'a, K, V>, key: &K) -> (r: SearchResult<
    'a,
    K,
    V,
>)
    requires
        total_order::<K>(),
        handle.is_edge(),
    ensures
        found_at(r, handle.node, rank_from(handle.node.keys@, *key, handle.idx as int), *key),
{
    let (node, start) = handle.into_node_and_index();
    match search_linear_at(node, key, start) {
        (idx, true) => SearchResult::Found(Handle::new_kv(node, idx)),
        (idx, false) => SearchResult::GoDown(Handle::new_edge(node, idx)),
    }
}

/// `r` is what a search for `k` that stopped in `node` at index `i` gives:
/// the entry at `i` where that holds `k`, else the gap at `i`.
pub open spec fn found_at<K: Ord, V>(r: SearchResult<'_, K, V>, node: &Node<K, V>, i: int, k: K) -> bool {
    &&& 0 <= i <= node.keys.len()
    &&& node.vals.len() == node.keys.len()
    &&& if i < node.keys.len() && node.keys[i] == k {
        r == SearchResult::Found(Handle { node, idx: i as usize, slot: Slot::KV })
    } else {
        r == SearchResult::GoDown(Handle { node, idx: i as usize, slot: Slot::Edge })
    }
}

/// Searches the tree under `node`. The result is the entry with `key`, or
/// the gap in a leaf at which `key` would be inserted.
pub fn search_tree<'a, K: Ord, V>(node: &'a Node<K, V>, key: &K) -> (r: SearchResult<'a, K, V>)
    requires
        total_order::<K>(),
        node.shaped(),
    ensures
        found_at(r, &node.target(*key), rank(node.target(*key).keys@, *key), *key),
        r is Found <==> node.lookup(*key) is Some,
        r matches SearchResult::Found(h) ==> node.lookup(*key) == Some(h.node.vals[h.idx as int]),
        r matches SearchResult::GoDown(h) ==> h.node.is_leaf(),
{
    let mut cur = node;
    loop
        invariant
            total_order::<K>(),
            cur.shaped(),
            node.target(*key) == cur.target(*key),
            node.lookup(*key) == cur.lookup(*key),
        decreases cur,
    {
        match search_node(cur, key) {
            SearchResult::Found(handle) => {
                return SearchResult::Found(handle);
            },
            SearchResult::GoDown(handle) => match handle.force() {
                ForceResult::Leaf(leaf) => {
                    return SearchResult::GoDown(leaf);
                },
                ForceResult::Internal(internal) => {
                    cur = internal.descend();
                    continue ;
                },
            },
        }
    }
}

/// Tells whether no key is before the one in front of it.
pub fn is_sorted<K: Ord>(keys: &[K]) -> (r: bool)
    requires
        total_order::<K>(),
    ensures
        r == sorted(keys@),
{
    let mut i: usize = 1;
    while i < keys.len()
        invariant
            total_order::<K>(),
            1 <= i,
            forall|a: int, b: int| 0 <= a <= b < i && b < keys.len() ==> le(keys[a], keys[b]),
        decreases keys.len() - i,
    {
        proof {
            lemma_order::<K>();
        }
        match compare(&keys[i - 1], &keys[i]) {
            Rel::Greater => {
                proof {
                    assert(!le(keys[i - 1], keys[i as int]));
                }
                return false;
            },
            _ => {},
        }
        proof {
            assert forall|a: int, b: int| 0 <= a <= b < i + 1 && b < keys.len() implies le(
                keys[a],
                keys[b],
            ) by {
                if b == i && a < i {
                    assert(le(keys[a], keys[i - 1]));
                }
            }
        }
        i += 1;
    }
    true
}

/// What a lookup found, as a reference.
pub open spec fn found_ref<'a, V>(found: Option<V>) -> Option<&'a V> {
    match found {
        Some(v) => Some(&v),
        None => None,
    }
}

/// What searches from `node` find for each of `keys`, in their order.
pub open spec fn answers<'a, K: Ord, V>(node: Node<K, V>, keys: Seq<K>) -> Seq<Option<&'a V>> {
    Seq::new(keys.len(), |i: int| found_ref(node.lookup(keys[i])))
}

/// Searches the tree under `node` for each of `keys`, which come in
/// ascending order, and appends what it finds to `out`.
///
/// The search for a key goes on from where the search for the key before it
/// stopped. It goes back up only as far as the key demands: to the nearest
/// edge on the way down whose entry to the right is not at or before the
/// key. These edges are kept on a stack.
pub fn search_tree_many<'a, K: Ord, V>(
    node: &'a Node<K, V>,
    keys: &[K],
    out: &mut Vec<Option<&'a V>>,
)
    requires
        total_order::<K>(),
        node.ordered_in(None, None),
        node.height() < MAX_DEPTH,
        sorted(keys@),
    ensures
        final(out)@ == old(out)@ + answers(*node, keys@),
{
    let ghost out0 = out@;
    let mut trail: Vec<&'a Node<K, V>> = Vec::new();
    trail.push(node);
    let mut cur_node = node.first_edge();
    let mut stack = stack_new();
    let mut cur_bound: (usize, usize) = (0, node.keys.len());
    let ghost mut los: Seq<Option<K>> = seq![None];
    let ghost mut his: Seq<Option<K>> = seq![None];
    proof {
        lemma_start(node, keys@);
        assert(trail@ =~= seq![node]);
        assert(stack_items(stack).push(cur_bound) =~= seq![(0usize, node.keys.len() as usize)]);
        assert(out@ =~= out0 + answers(*node, keys@.subrange(0, 0)));
    }
    let mut p: usize = 0;
    while p < keys.len()
        invariant
            p <= keys.len(),
            cursor_ok(
                *node,
                keys@,
                p as int,
                trail@,
                los,
                his,
                stack_items(stack).push(cur_bound),
                cur_node,
            ),
            out@ == out0 + answers(*node, keys@.subrange(0, p as int)),
        decreases keys.len() - p,
    {
        let k = &keys[p];
        loop
            invariant
                p < keys.len(),
                *k == keys[p as int],
                cursor_ok(
                    *node,
                    keys@,
                    p as int,
                    trail@,
                    los,
                    his,
                    stack_items(stack).push(cur_bound),
                    cur_node,
                ),
            ensures
                below(keys[p as int], his.last()),
            decreases stack_items(stack).len(),
        {
            let ghost marks = stack_items(stack).push(cur_bound);
            proof {
                lemma_order::<K>();
                assert(marks.last() == cur_bound);
                if marks.len() >= 2 {
                    assert(marks[marks.len() - 1].0 + 1 < trail.len());
                } else {
                    assert(marks[0] == cur_bound);
                }
                assert(trail@[cur_bound.0 as int].ordered_in(
                    los[cur_bound.0 as int],
                    his[cur_bound.0 as int],
                ));
            }
            let bound = Handle::new_edge(trail[cur_bound.0], cur_bound.1);
            let fits = match bound.right_kv() {
                Ok(kv) => match compare(k, kv.into_kv().0) {
                    Rel::Less => true,
                    _ => false,
                },
                Err(_) => true,
            };
            if fits {
                break ;
            }
            proof {
                lemma_back(*node, keys@, p as int, trail@, los, his, marks, cur_node);
                los = los.subrange(0, cur_bound.0 + 1);
                his = his.subrange(0, cur_bound.0 + 1);
            }
            cur_node = bound;
            trail.truncate(cur_bound.0 + 1);
            let ghost items = stack_items(stack);
            match stack_pop(&mut stack) {
                Some(mark) => {
                    cur_bound = mark;
                },
                None => {},
            }
            proof {
                assert(stack_items(stack).push(cur_bound) =~= marks.drop_last());
            }
        }
        loop
            invariant_except_break
                p < keys.len(),
                *k == keys[p as int],
                cursor_ok(
                    *node,
                    keys@,
                    p as int,
                    trail@,
                    los,
                    his,
                    stack_items(stack).push(cur_bound),
                    cur_node,
                ),
                below(keys[p as int], his.last()),
                out@ == out0 + answers(*node, keys@.subrange(0, p as int)),
            ensures
                p < keys.len(),
                cursor_ok(
                    *node,
                    keys@,
                    p + 1,
                    trail@,
                    los,
                    his,
                    stack_items(stack).push(cur_bound),
                    cur_node,
                ),
                out@ == out0 + answers(*node, keys@.subrange(0, p + 1)),
            decreases cur_node.node.height(),
        {
            let ghost marks = stack_items(stack).push(cur_bound);
            let ghost was = cur_node;
            let ghost i = rank_from(cur_node.node.keys@, *k, cur_node.idx as int);
            let ghost at = Handle { node: was.node, idx: i as usize, slot: Slot::Edge };
            let ghost sofar = out@;
            proof {
                lemma_stay(*node, keys@, p as int, trail@, los, his, marks, was, i);
                assert(answers(*node, keys@.subrange(0, p + 1)) =~= answers(
                    *node,
                    keys@.subrange(0, p as int),
                ).push(found_ref(node.lookup(keys[p as int]))));
            }
            match search_node_at(cur_node, k) {
                SearchResult::Found(handle) => {
                    cur_node = handle.left_edge();
                    out.push(Some(handle.into_kv().1));
                    proof {
                        lemma_next(*node, keys@, p as int, trail@, los, his, marks, at);
                        assert(out@ =~= out0 + answers(*node, keys@.subrange(0, p + 1)));
                    }
                    break ;
                },
                SearchResult::GoDown(handle) => {
                    cur_node = handle;
                    match handle.force() {
                        ForceResult::Leaf(_) => {
                            out.push(None);
                            proof {
                                lemma_next(*node, keys@, p as int, trail@, los, his, marks, at);
                                assert(out@ =~= out0 + answers(*node, keys@.subrange(0, p + 1)));
                            }
                            break ;
                        },
                        ForceResult::Internal(internal) => {
                            proof {
                                lemma_trail_grows(
                                    *node,
                                    keys@,
                                    p as int,
                                    trail@,
                                    los,
                                    his,
                                    marks,
                                    at,
                                );
                                if at.idx < at.node.keys.len() {
                                    lemma_down_marked(
                                        *node,
                                        keys@,
                                        p as int,
                                        trail@,
                                        los,
                                        his,
                                        marks,
                                        at,
                                    );
                                } else {
                                    lemma_down_last(
                                        *node,
                                        keys@,
                                        p as int,
                                        trail@,
                                        los,
                                        his,
                                        marks,
                                        at,
                                    );
                                }
                                assert(trail@[trail.len() - 1].ordered_in(
                                    los[trail.len() - 1],
                                    his[trail.len() - 1],
                                ));
                            }
                            if internal.right_kv().is_ok() {
                                stack_push(&mut stack, cur_bound);
                                cur_bound = (trail.len() - 1, internal.idx);
                                proof {
                                    assert(stack_items(stack).push(cur_bound) =~= marks.push(
                                        ((trail.len() - 1) as usize, at.idx),
                                    ));
                                }
                            }
                            let child = internal.descend();
                            proof {
                                los = los.push(at.node.edge_lo(los.last(), at.idx as int));
                                his = his.push(at.node.edge_hi(his.last(), at.idx as int));
                            }
                            trail.push(child);
                            cur_node = child.first_edge();
                        },
                    }
                },
            }
        }
        p += 1;
    }
    proof {
        assert(keys@.subrange(0, p as int) =~= keys@);
    }
}

} // verus!
