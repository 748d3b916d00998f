//! The state of a batch search, and what its steps keep true of it.
//!
//! A batch search walks the tree once for keys that come in order. Its
//! cursor is an edge in the node at the end of the trail, the way from the
//! root down. Its marks are the edges on the trail that have an entry to
//! their right: the key of that entry bounds what lies below the edge, so a
//! key at or above it sends the search back to the mark.

use crate::btree::lemmas::{lemma_rank, lemma_rank_of_edge, lemma_rank_resume};
use crate::btree::node::{among, rank, rank_from, Handle, Node, Slot, MAX_DEPTH};
use crate::btree::order::{below, le, lemma_order, lt, total_order};
use vstd::prelude::*;

verus! {

/// No key is before the one in front of it.
pub open spec fn sorted<K: Ord>(keys: Seq<K>) -> bool {
    forall|a: int, b: int| 0 <= a <= b < keys.len() ==> le(keys[a], keys[b])
}

/// The key to the right of the edge that a mark names, if there is one.
pub open spec fn bound_key<K: Ord, V>(trail: Seq<&Node<K, V>>, mark: (usize, usize)) -> Option<K> {
    if mark.0 < trail.len() && mark.1 < trail[mark.0 as int].keys.len() {
        Some(trail[mark.0 as int].keys[mark.1 as int])
    } else {
        None
    }
}

/// A search for any of the keys from `p` on that is below `upper` may go
/// on in `node` at index `idx`: it finds there what it finds from `root`,
/// and the keys of `node` before `idx` are before the key.
#[verifier::opaque]
pub open spec fn resumes<K: Ord, V>(
    root: Node<K, V>,
    node: Node<K, V>,
    idx: int,
    upper: Option<K>,
    keys: Seq<K>,
    p: int,
) -> bool {
    forall|q: int|
        p <= q < keys.len() && below(#[trigger] keys[q], upper) ==> {
            &&& root.lookup(keys[q]) == node.lookup(keys[q])
            &&& forall|x: int| 0 <= x < idx ==> lt(#[trigger] node.keys[x], keys[q])
        }
}

/// The trail leads from `root` down, one level with each step, and each of
/// its nodes is ordered between the bounds listed for it.
pub open spec fn trail_ok<K: Ord, V>(
    root: Node<K, V>,
    trail: Seq<&Node<K, V>>,
    los: Seq<Option<K>>,
    his: Seq<Option<K>>,
) -> bool {
    &&& trail.len() >= 1
    &&& los.len() == trail.len()
    &&& his.len() == trail.len()
    &&& *trail[0] == root
    &&& forall|j: int|
        0 <= j < trail.len() ==> (#[trigger] trail[j]).ordered_in(los[j], his[j])
            && trail[j].height() + j == root.height()
}

/// The marks are the edge behind the last entry of the root, which bounds
/// nothing, and above it edges of nodes on the trail, each deeper than the
/// one before. The key of a mark bounds the node at the mark above it, and
/// the key of the last mark bounds the node of the cursor. A search may
/// resume at each mark.
pub open spec fn marks_ok<K: Ord, V>(
    root: Node<K, V>,
    trail: Seq<&Node<K, V>>,
    his: Seq<Option<K>>,
    marks: Seq<(usize, usize)>,
    keys: Seq<K>,
    p: int,
) -> bool {
    &&& marks.len() >= 1
    &&& marks[0] == (0usize, root.keys.len() as usize)
    &&& his[trail.len() - 1] == bound_key(trail, marks.last())
    &&& forall|i: int, j: int| 1 <= i < j < marks.len() ==> marks[i].0 < marks[j].0
    &&& forall|i: int, j: int|
        0 <= i && j == i + 1 && j < marks.len() ==> his[(#[trigger] marks[j]).0 as int]
            == bound_key(trail, #[trigger] marks[i])
    &&& forall|i: int|
        1 <= i < marks.len() ==> {
            let b = #[trigger] marks[i];
            &&& i - 1 <= b.0
            &&& b.0 + 1 < trail.len()
            &&& b.1 < trail[b.0 as int].keys.len()
            &&& resumes(root, *trail[b.0 as int], b.1 as int, his[b.0 as int], keys, p)
        }
}

/// The state of a batch search before the key at `p`.
pub open spec fn cursor_ok<K: Ord, V>(
    root: Node<K, V>,
    keys: Seq<K>,
    p: int,
    trail: Seq<&Node<K, V>>,
    los: Seq<Option<K>>,
    his: Seq<Option<K>>,
    marks: Seq<(usize, usize)>,
    cur: Handle<'_, K, V>,
) -> bool {
    &&& total_order::<K>()
    &&& sorted(keys)
    &&& 0 <= p <= keys.len()
    &&& root.height() < MAX_DEPTH
    &&& trail_ok(root, trail, los, his)
    &&& marks_ok(root, trail, his, marks, keys, p)
    &&& cur.node == trail.last()
    &&& cur.is_edge()
    &&& resumes(root, *cur.node, cur.idx as int, his.last(), keys, p)
}

/// The search starts at the first edge of the root.
pub proof fn lemma_start<K: Ord, V>(root: &Node<K, V>, keys: Seq<K>)
    requires
        total_order::<K>(),
        sorted(keys),
        root.ordered_in(None, None),
        root.height() < MAX_DEPTH,
    ensures
        cursor_ok(
            *root,
            keys,
            0,
            seq![root],
            seq![None],
            seq![None],
            seq![(0usize, root.keys.len() as usize)],
            Handle { node: root, idx: 0, slot: Slot::Edge },
        ),
{
    reveal(resumes);
}

/// Going back to the last mark: the trail ends at the node of the mark,
/// and the cursor is the edge that the mark names.
pub proof fn lemma_back<K: Ord, V>(
    root: Node<K, V>,
    keys: Seq<K>,
    p: int,
    trail: Seq<&Node<K, V>>,
    los: Seq<Option<K>>,
    his: Seq<Option<K>>,
    marks: Seq<(usize, usize)>,
    cur: Handle<'_, K, V>,
)
    requires
        cursor_ok(root, keys, p, trail, los, his, marks, cur),
        marks.len() >= 2,
    ensures
        cursor_ok(
            root,
            keys,
            p,
            trail.subrange(0, marks.last().0 + 1),
            los.subrange(0, marks.last().0 + 1),
            his.subrange(0, marks.last().0 + 1),
            marks.drop_last(),
            Handle { node: trail[marks.last().0 as int], idx: marks.last().1, slot: Slot::Edge },
        ),
{
    let m = marks.len() - 1;
    let d = marks[m].0 as int;
    let trail2 = trail.subrange(0, d + 1);
    let his2 = his.subrange(0, d + 1);
    let los2 = los.subrange(0, d + 1);
    let marks2 = marks.drop_last();
    assert(marks[m].0 + 1 < trail.len());
    assert(trail[d].ordered_in(los[d], his[d]));
    assert forall|i: int| 0 <= i < marks2.len() implies bound_key(trail2, #[trigger] marks2[i])
        == bound_key(trail, marks[i]) by {
        if i >= 1 {
            assert(marks[i].0 < marks[m].0);
            assert(trail2[marks[i].0 as int] == trail[marks[i].0 as int]);
        } else {
            assert(trail2[0] == trail[0]);
        }
    }
    assert(his2[trail2.len() - 1] == bound_key(trail2, marks2.last())) by {
        assert(his[marks[m].0 as int] == bound_key(trail, marks[m - 1]));
        assert(marks2.last() == marks[m - 1]);
    }
    assert forall|i: int, j: int| 0 <= i && j == i + 1 && j < marks2.len() implies his2[(
    #[trigger] marks2[j]).0 as int] == bound_key(trail2, #[trigger] marks2[i]) by {
        assert(marks2[j] == marks[j]);
        assert(marks2[i] == marks[i]);
        assert(marks[j].0 < marks[m].0);
        assert(his2[marks[j].0 as int] == his[marks[j].0 as int]);
    }
    assert forall|i: int| 1 <= i < marks2.len() implies {
        let b = #[trigger] marks2[i];
        &&& i - 1 <= b.0
        &&& b.0 + 1 < trail2.len()
        &&& b.1 < trail2[b.0 as int].keys.len()
        &&& resumes(root, *trail2[b.0 as int], b.1 as int, his2[b.0 as int], keys, p)
    } by {
        let b = marks[i];
        assert(marks2[i] == b);
        assert(b.0 < marks[m].0);
        assert(trail2[b.0 as int] == trail[b.0 as int]);
        assert(his2[b.0 as int] == his[b.0 as int]);
    }
    assert forall|j: int| 0 <= j < trail2.len() implies (#[trigger] trail2[j]).ordered_in(
        los2[j],
        his2[j],
    ) && trail2[j].height() + j == root.height() by {
        assert(trail2[j] == trail[j]);
    }
}

/// The key at `p` was looked for in the node of the cursor from the
/// cursor on, and the scan stopped at `i`: the cursor moves there.
pub proof fn lemma_stay<K: Ord, V>(
    root: Node<K, V>,
    keys: Seq<K>,
    p: int,
    trail: Seq<&Node<K, V>>,
    los: Seq<Option<K>>,
    his: Seq<Option<K>>,
    marks: Seq<(usize, usize)>,
    cur: Handle<'_, K, V>,
    i: int,
)
    requires
        cursor_ok(root, keys, p, trail, los, his, marks, cur),
        p < keys.len(),
        below(keys[p], his.last()),
        i == rank_from(cur.node.keys@, keys[p], cur.idx as int),
    ensures
        i == rank(cur.node.keys@, keys[p]),
        0 <= i <= cur.node.keys.len(),
        root.lookup(keys[p]) == cur.node.lookup(keys[p]),
        cursor_ok(
            root,
            keys,
            p,
            trail,
            los,
            his,
            marks,
            Handle { node: cur.node, idx: i as usize, slot: Slot::Edge },
        ),
{
    reveal(resumes);
    lemma_order::<K>();
    let node = *cur.node;
    let k = keys[p];
    lemma_rank_resume(node.keys@, k, cur.idx as int);
    lemma_rank(node.keys@, k);
    assert(trail[trail.len() - 1].ordered_in(los[trail.len() - 1], his[trail.len() - 1]));
    assert forall|q: int| p <= q < keys.len() && below(#[trigger] keys[q], his.last()) implies {
        &&& root.lookup(keys[q]) == node.lookup(keys[q])
        &&& forall|x: int| 0 <= x < i ==> lt(#[trigger] node.keys[x], keys[q])
    } by {
        assert(le(k, keys[q]));
        assert forall|x: int| 0 <= x < i implies lt(#[trigger] node.keys[x], keys[q]) by {
            assert(lt(node.keys[x], k));
        }
    }
}

/// Weakening: what holds before the key at `p` holds before the next.
pub proof fn lemma_next<K: Ord, V>(
    root: Node<K, V>,
    keys: Seq<K>,
    p: int,
    trail: Seq<&Node<K, V>>,
    los: Seq<Option<K>>,
    his: Seq<Option<K>>,
    marks: Seq<(usize, usize)>,
    cur: Handle<'_, K, V>,
)
    requires
        cursor_ok(root, keys, p, trail, los, his, marks, cur),
        p < keys.len(),
    ensures
        cursor_ok(root, keys, p + 1, trail, los, his, marks, cur),
{
    reveal(resumes);
    assert forall|i: int| 1 <= i < marks.len() implies {
        let b = #[trigger] marks[i];
        resumes(root, *trail[b.0 as int], b.1 as int, his[b.0 as int], keys, p + 1)
    } by {
        let b = marks[i];
        assert(resumes(root, *trail[b.0 as int], b.1 as int, his[b.0 as int], keys, p));
    }
}

/// Under the edge at the rank of a key that a node does not hold, a search
/// for that key and for the keys behind it that are still below the bound
/// of the edge finds what it finds from the node.
pub proof fn lemma_edge_resumes<K: Ord, V>(
    root: Node<K, V>,
    node: Node<K, V>,
    lo: Option<K>,
    hi: Option<K>,
    keys: Seq<K>,
    p: int,
    idx: int,
)
    requires
        total_order::<K>(),
        sorted(keys),
        0 <= p < keys.len(),
        node.ordered_in(lo, hi),
        resumes(root, node, idx, hi, keys, p),
        below(keys[p], hi),
        !among(node.keys@, keys[p]),
        !node.is_leaf(),
    ensures
        0 <= rank(node.keys@, keys[p]) < node.edges.len(),
        below(keys[p], node.edge_hi(hi, rank(node.keys@, keys[p]))),
        resumes(root, node, rank(node.keys@, keys[p]), hi, keys, p),
        resumes(
            root,
            node.edges[rank(node.keys@, keys[p])],
            0,
            node.edge_hi(hi, rank(node.keys@, keys[p])),
            keys,
            p,
        ),
{
    reveal(resumes);
    lemma_order::<K>();
    let k = keys[p];
    let i = rank(node.keys@, k);
    let child = node.edges[i];
    let chi = node.edge_hi(hi, i);
    lemma_rank(node.keys@, k);
    if i < node.keys.len() {
        assert(!lt(node.keys[i], k));
        assert(lt(k, node.keys[i]));
    }
    assert forall|q: int| p <= q < keys.len() && below(#[trigger] keys[q], hi) implies {
        &&& root.lookup(keys[q]) == node.lookup(keys[q])
        &&& forall|x: int| 0 <= x < i ==> lt(#[trigger] node.keys[x], keys[q])
    } by {
        assert(le(k, keys[q]));
        assert forall|x: int| 0 <= x < i implies lt(#[trigger] node.keys[x], keys[q]) by {
            assert(lt(node.keys[x], k));
        }
    }
    assert forall|q: int| p <= q < keys.len() && below(#[trigger] keys[q], chi) implies {
        &&& root.lookup(keys[q]) == child.lookup(keys[q])
        &&& forall|x: int| 0 <= x < 0 ==> lt(#[trigger] child.keys[x], keys[q])
    } by {
        let kq = keys[q];
        assert(le(k, kq));
        if i < node.keys.len() {
            assert(below(node.keys[i], hi));
        }
        assert(below(kq, hi));
        if i > 0 {
            assert(lt(node.keys[i - 1], k));
        }
        lemma_rank_of_edge(node.keys@, i, kq);
    }
}

/// What going down rests on: the cursor stands in an internal node at the
/// rank of the key at `p`, which the node does not hold.
pub open spec fn may_go_down<K: Ord, V>(
    root: Node<K, V>,
    keys: Seq<K>,
    p: int,
    trail: Seq<&Node<K, V>>,
    los: Seq<Option<K>>,
    his: Seq<Option<K>>,
    marks: Seq<(usize, usize)>,
    cur: Handle<'_, K, V>,
) -> bool {
    &&& cursor_ok(root, keys, p, trail, los, his, marks, cur)
    &&& p < keys.len()
    &&& below(keys[p], his.last())
    &&& cur.idx == rank(cur.node.keys@, keys[p])
    &&& !among(cur.node.keys@, keys[p])
    &&& !cur.node.is_leaf()
}

/// The trail with the child under the cursor at its end.
pub proof fn lemma_trail_grows<K: Ord, V>(
    root: Node<K, V>,
    keys: Seq<K>,
    p: int,
    trail: Seq<&Node<K, V>>,
    los: Seq<Option<K>>,
    his: Seq<Option<K>>,
    marks: Seq<(usize, usize)>,
    cur: Handle<'_, K, V>,
)
    requires
        may_go_down(root, keys, p, trail, los, his, marks, cur),
    ensures
        cur.idx < cur.node.edges.len(),
        marks.len() <= trail.len(),
        trail.len() <= root.height(),
        below(keys[p], cur.node.edge_hi(his.last(), cur.idx as int)),
        trail_ok(
            root,
            trail.push(&cur.node.edges[cur.idx as int]),
            los.push(cur.node.edge_lo(los.last(), cur.idx as int)),
            his.push(cur.node.edge_hi(his.last(), cur.idx as int)),
        ),
        resumes(root, *cur.node, cur.idx as int, his.last(), keys, p),
        resumes(
            root,
            cur.node.edges[cur.idx as int],
            0,
            cur.node.edge_hi(his.last(), cur.idx as int),
            keys,
            p,
        ),
        forall|b: (usize, usize)|
            b.0 < trail.len() ==> #[trigger] bound_key(
                trail.push(&cur.node.edges[cur.idx as int]),
                b,
            ) == bound_key(trail, b),
{
    let node = *cur.node;
    let i = cur.idx as int;
    let d = trail.len() - 1;
    let child = node.edges[i];
    let hi = his.last();
    assert(trail[d].ordered_in(los[d], his[d]));
    assert(trail[d].height() + d == root.height());
    lemma_edge_resumes(root, node, los[d], hi, keys, p, i);
    assert(child.height() + 1 == node.height());
    let trail2 = trail.push(&cur.node.edges[cur.idx as int]);
    let los2 = los.push(node.edge_lo(los.last(), i));
    let his2 = his.push(node.edge_hi(hi, i));
    let m = marks.len() - 1;
    if m >= 1 {
        assert(m - 1 <= marks[m].0);
        assert(marks[m].0 + 1 < trail.len());
    }
    assert forall|j: int| 0 <= j < trail2.len() implies (#[trigger] trail2[j]).ordered_in(
        los2[j],
        his2[j],
    ) && trail2[j].height() + j == root.height() by {
        if j < trail.len() {
            assert(trail2[j] == trail[j]);
            assert(los2[j] == los[j]);
            assert(his2[j] == his[j]);
            assert(trail[j].ordered_in(los[j], his[j]));
        }
    }
    assert forall|b: (usize, usize)| b.0 < trail.len() implies #[trigger] bound_key(trail2, b)
        == bound_key(trail, b) by {
        assert(trail2[b.0 as int] == trail[b.0 as int]);
    }
}

/// Going down under an edge that has an entry to its right: the trail
/// grows by the child under the cursor, the edge becomes the last mark,
/// and the cursor is the first edge of the child.
pub proof fn lemma_down_marked<K: Ord, V>(
    root: Node<K, V>,
    keys: Seq<K>,
    p: int,
    trail: Seq<&Node<K, V>>,
    los: Seq<Option<K>>,
    his: Seq<Option<K>>,
    marks: Seq<(usize, usize)>,
    cur: Handle<'_, K, V>,
)
    requires
        may_go_down(root, keys, p, trail, los, his, marks, cur),
        cur.idx < cur.node.keys.len(),
    ensures
        cursor_ok(
            root,
            keys,
            p,
            trail.push(&cur.node.edges[cur.idx as int]),
            los.push(cur.node.edge_lo(los.last(), cur.idx as int)),
            his.push(cur.node.edge_hi(his.last(), cur.idx as int)),
            marks.push(((trail.len() - 1) as usize, cur.idx)),
            Handle { node: &cur.node.edges[cur.idx as int], idx: 0, slot: Slot::Edge },
        ),
{
    lemma_trail_grows(root, keys, p, trail, los, his, marks, cur);
    let node = *cur.node;
    let i = cur.idx as int;
    let d = trail.len() - 1;
    let trail2 = trail.push(&cur.node.edges[cur.idx as int]);
    let his2 = his.push(node.edge_hi(his.last(), i));
    let marks2 = marks.push((d as usize, cur.idx));
    let m = marks.len() - 1;
    assert(trail[d].ordered_in(los[d], his[d]));
    assert(trail2[d] == trail[d]);
    assert(marks2[m + 1] == (d as usize, cur.idx));
    assert(bound_key(trail2, marks2.last()) == Some(node.keys[i]));
    assert(his2[trail2.len() - 1] == bound_key(trail2, marks2.last()));
    assert forall|a: int, b: int| 1 <= a < b < marks2.len() implies marks2[a].0 < marks2[b].0 by {
        if b == m + 1 {
            assert(marks2[a] == marks[a]);
            assert(marks[a].0 + 1 < trail.len());
        } else {
            assert(marks2[a] == marks[a]);
            assert(marks2[b] == marks[b]);
        }
    }
    assert forall|a: int, b: int| 0 <= a && b == a + 1 && b < marks2.len() implies his2[(
    #[trigger] marks2[b]).0 as int] == bound_key(trail2, #[trigger] marks2[a]) by {
        assert(marks2[a] == marks[a]);
        if a >= 1 {
            assert(marks[a].0 + 1 < trail.len());
        }
        assert(bound_key(trail2, marks[a]) == bound_key(trail, marks[a]));
        if b <= m {
            assert(marks2[b] == marks[b]);
            assert(marks[b].0 + 1 < trail.len());
            assert(his2[marks[b].0 as int] == his[marks[b].0 as int]);
        } else {
            assert(his2[d] == his[d]);
        }
    }
    assert forall|j: int| 1 <= j < marks2.len() implies {
        let b = #[trigger] marks2[j];
        &&& j - 1 <= b.0
        &&& b.0 + 1 < trail2.len()
        &&& b.1 < trail2[b.0 as int].keys.len()
        &&& resumes(root, *trail2[b.0 as int], b.1 as int, his2[b.0 as int], keys, p)
    } by {
        if j <= m {
            let b = marks[j];
            assert(marks2[j] == b);
            assert(b.0 + 1 < trail.len());
            assert(trail2[b.0 as int] == trail[b.0 as int]);
            assert(his2[b.0 as int] == his[b.0 as int]);
        } else {
            if m >= 1 {
                assert(m - 1 <= marks[m].0);
                assert(marks[m].0 + 1 < trail.len());
            }
            assert(his2[d] == his[d]);
        }
    }
    let cur2 = Handle { node: &cur.node.edges[cur.idx as int], idx: 0, slot: Slot::Edge };
    let los2 = los.push(cur.node.edge_lo(los.last(), cur.idx as int));
    assert(marks2[0] == marks[0]);
    assert(trail_ok(root, trail2, los2, his2));
    assert(marks_ok(root, trail2, his2, marks2, keys, p));
    assert(cur2.node == trail2.last());
    assert(trail2[d + 1].ordered_in(los2[d + 1], his2[d + 1]));
    assert(cur2.is_edge());
    assert(resumes(root, *cur2.node, cur2.idx as int, his2.last(), keys, p));
}

/// Going down under the last edge of a node: the trail grows by the child
/// under the cursor, and the cursor is the first edge of the child.
pub proof fn lemma_down_last<K: Ord, V>(
    root: Node<K, V>,
    keys: Seq<K>,
    p: int,
    trail: Seq<&Node<K, V>>,
    los: Seq<Option<K>>,
    his: Seq<Option<K>>,
    marks: Seq<(usize, usize)>,
    cur: Handle<'_, K, V>,
)
    requires
        may_go_down(root, keys, p, trail, los, his, marks, cur),
        cur.idx == cur.node.keys.len(),
    ensures
        cursor_ok(
            root,
            keys,
            p,
            trail.push(&cur.node.edges[cur.idx as int]),
            los.push(cur.node.edge_lo(los.last(), cur.idx as int)),
            his.push(cur.node.edge_hi(his.last(), cur.idx as int)),
            marks,
            Handle { node: &cur.node.edges[cur.idx as int], idx: 0, slot: Slot::Edge },
        ),
{
    lemma_trail_grows(root, keys, p, trail, los, his, marks, cur);
    let node = *cur.node;
    let i = cur.idx as int;
    let d = trail.len() - 1;
    let trail2 = trail.push(&cur.node.edges[cur.idx as int]);
    let his2 = his.push(node.edge_hi(his.last(), i));
    let m = marks.len() - 1;
    assert(trail[d].ordered_in(los[d], his[d]));
    assert(bound_key(trail2, marks.last()) == bound_key(trail, marks.last())) by {
        if m >= 1 {
            assert(marks[m].0 + 1 < trail.len());
        }
    }
    assert(his2[trail2.len() - 1] == bound_key(trail2, marks.last()));
    assert forall|a: int, b: int| 0 <= a && b == a + 1 && b < marks.len() implies his2[(
    #[trigger] marks[b]).0 as int] == bound_key(trail2, #[trigger] marks[a]) by {
        if a >= 1 {
            assert(marks[a].0 + 1 < trail.len());
        }
        assert(bound_key(trail2, marks[a]) == bound_key(trail, marks[a]));
        assert(marks[b].0 + 1 < trail.len());
        assert(his2[marks[b].0 as int] == his[marks[b].0 as int]);
    }
    assert forall|j: int| 1 <= j < marks.len() implies {
        let b = #[trigger] marks[j];
        &&& j - 1 <= b.0
        &&& b.0 + 1 < trail2.len()
        &&& b.1 < trail2[b.0 as int].keys.len()
        &&& resumes(root, *trail2[b.0 as int], b.1 as int, his2[b.0 as int], keys, p)
    } by {
        let b = marks[j];
        assert(b.0 + 1 < trail.len());
        assert(trail2[b.0 as int] == trail[b.0 as int]);
        assert(his2[b.0 as int] == his[b.0 as int]);
    }
    let cur2 = Handle { node: &cur.node.edges[cur.idx as int], idx: 0, slot: Slot::Edge };
    let los2 = los.push(cur.node.edge_lo(los.last(), cur.idx as int));
    assert(trail_ok(root, trail2, los2, his2));
    assert(marks_ok(root, trail2, his2, marks, keys, p));
    assert(cur2.node == trail2.last());
    assert(trail2[d + 1].ordered_in(los2[d + 1], his2[d + 1]));
    assert(cur2.is_edge());
    assert(resumes(root, *cur2.node, cur2.idx as int, his2.last(), keys, p));
}

} // verus!
