//! Nodes of the tree, and handles that address a position inside a node.

use crate::btree::order::{above, below, lt};
use vstd::prelude::*;

verus! {

/// The most entries that a node holds.
pub const CAPACITY: usize = 11;

/// The fewest entries that a node other than the root holds.
pub const MIN_LEN: usize = 5;

/// Where a node with one entry too many is split: the entry at this index
/// moves up, those before it stay, those behind it go to the new sibling.
pub const SPLIT_AT: usize = 6;

/// No tree is higher than this.
pub const MAX_DEPTH: usize = 32;

/// A node owns its entries, ordered by key, and its children. A leaf has no
/// children; an internal node has one more child than it has entries.
pub struct Node<K, V> {
    pub keys: Vec<K>,
    pub vals: Vec<V>,
    pub edges: Vec<Node<K, V>>,
}

/// The first index at or after `start` whose key is not before `k`; the
/// number of keys where there is none.
pub open spec fn rank_from<K: Ord>(keys: Seq<K>, k: K, start: int) -> int
    decreases keys.len() - start,
{
    if 0 <= start < keys.len() && lt(keys[start], k) {
        rank_from(keys, k, start + 1)
    } else {
        start
    }
}

/// The first index whose key is not before `k`.
pub open spec fn rank<K: Ord>(keys: Seq<K>, k: K) -> int {
    rank_from(keys, k, 0)
}

/// `k` is one of `keys`, and then stands at its rank.
pub open spec fn among<K: Ord>(keys: Seq<K>, k: K) -> bool {
    0 <= rank(keys, k) < keys.len() && keys[rank(keys, k)] == k
}

/// Each key is strictly before the next.
pub open spec fn ascending<K: Ord>(keys: Seq<K>) -> bool {
    forall|i: int, j: int| 0 <= i < j < keys.len() ==> lt(keys[i], keys[j])
}

impl<K: Ord, V> Node<K, V> {
    pub open spec fn is_leaf(self) -> bool {
        self.edges.len() == 0
    }

    /// The number of edges from this node down to a leaf.
    pub open spec fn height(self) -> nat
        decreases self,
    {
        if self.edges.len() == 0 {
            0
        } else {
            self.edges[0].height() + 1
        }
    }

    /// The lower bound of the keys under edge `i`.
    pub open spec fn edge_lo(self, lo: Option<K>, i: int) -> Option<K> {
        if i == 0 {
            lo
        } else {
            Some(self.keys[i - 1])
        }
    }

    /// The upper bound of the keys under edge `i`.
    pub open spec fn edge_hi(self, hi: Option<K>, i: int) -> Option<K> {
        if i == self.keys.len() {
            hi
        } else {
            Some(self.keys[i])
        }
    }

    /// Every node of the subtree has a value for each key and is a leaf or
    /// has one more child than keys.
    pub open spec fn shaped(self) -> bool
        decreases self,
    {
        &&& self.vals.len() == self.keys.len()
        &&& (self.edges.len() == 0 || self.edges.len() == self.keys.len() + 1)
        &&& forall|i: int| 0 <= i < self.edges.len() ==> (#[trigger] self.edges[i]).shaped()
    }

    /// The subtree is ordered and balanced, with keys strictly between `lo`
    /// and `hi`: keys ascend inside a node; the keys under an edge lie
    /// between the entries beside it; every node below this one holds
    /// between `MIN_LEN` and `CAPACITY` entries; all leaves are at one depth.
    /// Of the number of entries of this node itself it says nothing.
    pub open spec fn ordered_in(self, lo: Option<K>, hi: Option<K>) -> bool
        decreases self,
    {
        &&& self.vals.len() == self.keys.len()
        &&& ascending(self.keys@)
        &&& forall|i: int|
            0 <= i < self.keys.len() ==> above(lo, #[trigger] self.keys[i]) && below(
                self.keys[i],
                hi,
            )
        &&& (self.edges.len() == 0 || self.edges.len() == self.keys.len() + 1)
        &&& forall|i: int|
            0 <= i < self.edges.len() ==> {
                &&& (#[trigger] self.edges[i]).ordered_in(self.edge_lo(lo, i), self.edge_hi(hi, i))
                &&& MIN_LEN <= self.edges[i].keys.len() <= CAPACITY
                &&& self.edges[i].height() + 1 == self.height()
            }
    }

    /// The subtree is a B-tree with keys strictly between `lo` and `hi`
    /// whose root holds at least `min_len` entries.
    pub open spec fn wf_in(self, lo: Option<K>, hi: Option<K>, min_len: nat) -> bool {
        &&& self.ordered_in(lo, hi)
        &&& min_len <= self.keys.len() <= CAPACITY
    }

    /// The value that a search for `k` from this node finds.
    pub open spec fn lookup(self, k: K) -> Option<V>
        decreases self,
    {
        let i = rank(self.keys@, k);
        if 0 <= i < self.keys.len() && self.keys[i] == k {
            if i < self.vals.len() {
                Some(self.vals[i])
            } else {
                None
            }
        } else if 0 <= i < self.edges.len() {
            self.edges[i].lookup(k)
        } else {
            None
        }
    }

    /// The node at which a search for `k` from this node ends: the node that
    /// holds `k`, or the leaf in which `k` would stand.
    pub open spec fn target(self, k: K) -> Node<K, V>
        decreases self,
    {
        let i = rank(self.keys@, k);
        if 0 <= i < self.keys.len() && self.keys[i] == k {
            self
        } else if 0 <= i < self.edges.len() {
            self.edges[i].target(k)
        } else {
            self
        }
    }

    /// Whether an insertion of `k` under this node splits this node: `k` is
    /// new, and this node and every node on the way down to the leaf for
    /// `k` is full.
    pub open spec fn will_split(self, k: K) -> bool
        decreases self,
    {
        let i = rank(self.keys@, k);
        if among(self.keys@, k) {
            false
        } else if self.edges.len() == 0 {
            self.keys.len() >= CAPACITY
        } else if 0 <= i < self.edges.len() {
            self.keys.len() >= CAPACITY && self.edges[i].will_split(k)
        } else {
            false
        }
    }

    /// The number of nodes that an insertion of `k` under this node splits.
    pub open spec fn splits(self, k: K) -> nat
        decreases self,
    {
        let i = rank(self.keys@, k);
        let here: nat = if self.will_split(k) {
            1
        } else {
            0
        };
        if among(self.keys@, k) {
            0
        } else if self.edges.len() == 0 {
            here
        } else if 0 <= i < self.edges.len() {
            self.edges[i].splits(k) + here
        } else {
            0
        }
    }

    /// The node holds nothing.
    pub open spec fn blank(self) -> bool {
        self.keys.len() == 0 && self.vals.len() == 0 && self.edges.len() == 0
    }

    /// The entries of the `n` first children, each child's in order.
    pub open spec fn entries_upto(self, n: int) -> Seq<(K, V)>
        decreases self, n,
    {
        if n <= 0 || n > self.edges.len() {
            Seq::empty()
        } else if n == 1 {
            self.edges[0].entries()
        } else {
            self.entries_upto(n - 1).push((self.keys[n - 2], self.vals[n - 2]))
                + self.edges[n - 1].entries()
        }
    }

    /// The entries of the subtree in order: each child's entries stand
    /// before the entry that follows the child.
    pub open spec fn entries(self) -> Seq<(K, V)>
        decreases self,
    {
        if self.edges.len() == 0 {
            self.keys@.zip_with(self.vals@)
        } else {
            self.entries_upto(self.edges.len() as int)
        }
    }
}

/// What a handle addresses in its node.
#[derive(Clone, Copy, Debug, PartialEq, Eq, Structural)]
pub enum Slot {
    /// A gap between entries, or before the first or after the last of them.
    Edge,
    /// An entry.
    KV,
}

/// A position inside a node.
pub struct Handle<'a, K, V> {
    pub node: &'a Node<K, V>,
    pub idx: usize,
    pub slot: Slot,
}

impl<'a, K, V> Clone for Handle<'a, K, V> {
    fn clone(&self) -> (r: Self)
        ensures
            r == *self,
    {
        Handle { node: self.node, idx: self.idx, slot: self.slot }
    }
}

impl<'a, K, V> Copy for Handle<'a, K, V> {

}

/// A handle's node seen as what it is.
pub enum ForceResult<'a, K, V> {
    Leaf(Handle<'a, K, V>),
    Internal(Handle<'a, K, V>),
}

impl<'a, K: Ord, V> Handle<'a, K, V> {
    /// The index is one that the node has for this kind of position.
    pub open spec fn wf(self) -> bool {
        &&& self.node.vals.len() == self.node.keys.len()
        &&& match self.slot {
            Slot::Edge => self.idx <= self.node.keys.len(),
            Slot::KV => self.idx < self.node.keys.len(),
        }
    }

    pub open spec fn is_edge(self) -> bool {
        self.wf() && self.slot == Slot::Edge
    }

    pub open spec fn is_kv(self) -> bool {
        self.wf() && self.slot == Slot::KV
    }

    /// The handle of the entry at `idx`.
    pub fn new_kv(node: &'a Node<K, V>, idx: usize) -> (h: Self)
        requires
            node.vals.len() == node.keys.len(),
            idx < node.keys.len(),
        ensures
            h == (Handle { node, idx, slot: Slot::KV }),
            h.is_kv(),
    {
        Handle { node, idx, slot: Slot::KV }
    }

    /// The handle of the gap before the entry at `idx`.
    pub fn new_edge(node: &'a Node<K, V>, idx: usize) -> (h: Self)
        requires
            node.vals.len() == node.keys.len(),
            idx <= node.keys.len(),
        ensures
            h == (Handle { node, idx, slot: Slot::Edge }),
            h.is_edge(),
    {
        Handle { node, idx, slot: Slot::Edge }
    }

    pub fn into_node_and_index(self) -> (r: (&'a Node<K, V>, usize))
        ensures
            r.0 == self.node,
            r.1 == self.idx,
    {
        (self.node, self.idx)
    }

    /// The gap before an entry.
    pub fn left_edge(self) -> (h: Self)
        requires
            self.is_kv(),
        ensures
            h == (Handle { node: self.node, idx: self.idx, slot: Slot::Edge }),
            h.is_edge(),
    {
        Handle { node: self.node, idx: self.idx, slot: Slot::Edge }
    }

    /// The gap after an entry.
    pub fn right_edge(self) -> (h: Self)
        requires
            self.is_kv(),
        ensures
            h == (Handle { node: self.node, idx: (self.idx + 1) as usize, slot: Slot::Edge }),
            h.is_edge(),
    {
        Handle { node: self.node, idx: self.idx + 1, slot: Slot::Edge }
    }

    /// The entry after a gap, or the gap itself where it is the last one.
    pub fn right_kv(self) -> (r: Result<Self, Self>)
        requires
            self.is_edge(),
        ensures
            self.idx < self.node.keys.len() ==> r == Ok::<Self, Self>(
                Handle { node: self.node, idx: self.idx, slot: Slot::KV },
            ),
            self.idx == self.node.keys.len() ==> r == Err::<Self, Self>(self),
            r matches Ok(h) ==> h.is_kv(),
    {
        if self.idx < self.node.keys.len() {
            Ok(Handle { node: self.node, idx: self.idx, slot: Slot::KV })
        } else {
            Err(self)
        }
    }

    /// The key and the value of an entry.
    pub fn into_kv(self) -> (r: (&'a K, &'a V))
        requires
            self.is_kv(),
        ensures
            *r.0 == self.node.keys[self.idx as int],
            *r.1 == self.node.vals[self.idx as int],
    {
        (&self.node.keys[self.idx], &self.node.vals[self.idx])
    }

    /// Tells a leaf from an internal node.
    pub fn force(self) -> (r: ForceResult<'a, K, V>)
        ensures
            self.node.is_leaf() ==> r == ForceResult::Leaf(self),
            !self.node.is_leaf() ==> r == ForceResult::Internal(self),
    {
        if self.node.edges.len() == 0 {
            ForceResult::Leaf(self)
        } else {
            ForceResult::Internal(self)
        }
    }

    /// The child under a gap of an internal node.
    pub fn descend(self) -> (child: &'a Node<K, V>)
        requires
            self.is_edge(),
            self.node.edges.len() == self.node.keys.len() + 1,
        ensures
            *child == self.node.edges[self.idx as int],
    {
        &self.node.edges[self.idx]
    }
}

impl<K: Ord, V> Node<K, V> {
    /// The gap before the first entry.
    pub fn first_edge(&self) -> (h: Handle<'_, K, V>)
        requires
            self.vals.len() == self.keys.len(),
        ensures
            h == (Handle { node: self, idx: 0, slot: Slot::Edge }),
            h.is_edge(),
    {
        Handle { node: self, idx: 0, slot: Slot::Edge }
    }

    /// The gap after the last entry.
    pub fn last_edge(&self) -> (h: Handle<'_, K, V>)
        requires
            self.vals.len() == self.keys.len(),
        ensures
            h == (Handle { node: self, idx: self.keys.len(), slot: Slot::Edge }),
            h.is_edge(),
    {
        Handle { node: self, idx: self.keys.len(), slot: Slot::Edge }
    }
}

} // verus!
