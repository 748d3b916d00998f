//! The entries of a subtree in order, and how many of them there are.

use crate::btree::lemmas::{lemma_rank, lemma_rank_of_edge, lemma_rank_unique};
use crate::btree::node::{among, rank, Node, MIN_LEN};
use crate::btree::order::{above, below, lemma_order, lt, total_order};
use vstd::arithmetic::power2::{lemma_pow2_adds, lemma_pow2_pos, pow2};
use vstd::prelude::*;

verus! {

/// `e` lists in ascending order of keys, and between `lo` and `hi`, what a
/// search from `node` finds for the keys below `hi`.
pub open spec fn lists<K: Ord, V>(
    node: Node<K, V>,
    e: Seq<(K, V)>,
    lo: Option<K>,
    hi: Option<K>,
) -> bool {
    &&& forall|i: int| 0 <= i < e.len() ==> above(lo, (#[trigger] e[i]).0) && below(e[i].0, hi)
    &&& forall|a: int, b: int| 0 <= a < b < e.len() ==> lt(e[a].0, e[b].0)
    &&& forall|i: int| 0 <= i < e.len() ==> node.lookup((#[trigger] e[i]).0) == Some(e[i].1)
    &&& forall|x: K|
        (#[trigger] node.lookup(x)) is Some && below(x, hi) ==> exists|i: int|
            0 <= i < e.len() && (#[trigger] e[i]).0 == x
}

/// The entries of the first `n` children of an internal node, with the
/// entries between them, list what the node holds below the upper bound of
/// the last of these children.
pub proof fn lemma_entries_upto<K: Ord, V>(node: Node<K, V>, lo: Option<K>, hi: Option<K>, n: int)
    requires
        total_order::<K>(),
        node.ordered_in(lo, hi),
        1 <= n <= node.edges.len(),
    ensures
        lists(node, node.entries_upto(n), lo, node.edge_hi(hi, n - 1)),
    decreases node, n,
{
    lemma_order::<K>();
    let c = node.edges[n - 1];
    let clo = node.edge_lo(lo, n - 1);
    let chi = node.edge_hi(hi, n - 1);
    let ce = c.entries();
    lemma_entries(c, clo, chi);
    let e = node.entries_upto(n);
    assert forall|i: int| 0 <= i < ce.len() implies node.lookup((#[trigger] ce[i]).0) == Some(
        ce[i].1,
    ) && above(lo, ce[i].0) by {
        let x = ce[i].0;
        lemma_rank_of_edge(node.keys@, n - 1, x);
        if n > 1 {
            assert(above(lo, node.keys[n - 2]));
        }
    }
    assert forall|x: K|
        (#[trigger] node.lookup(x)) is Some && below(x, chi) && rank(node.keys@, x) == n - 1
            && !among(node.keys@, x) implies exists|i: int|
        0 <= i < ce.len() && (#[trigger] ce[i]).0 == x by {
        assert(c.lookup(x) is Some);
    }
    if n == 1 {
        assert(e == ce);
        assert forall|x: K| (#[trigger] node.lookup(x)) is Some && below(x, chi) implies exists|
            i: int,
        |
            0 <= i < e.len() && (#[trigger] e[i]).0 == x by {
            lemma_rank(node.keys@, x);
            let r = rank(node.keys@, x);
            if r > 0 {
                assert(!lt(node.keys[0], x));
            }
            if among(node.keys@, x) {
                assert(lt(x, node.keys[0]));
            }
        }
    } else {
        let p = node.entries_upto(n - 1);
        let m = (node.keys[n - 2], node.vals[n - 2]);
        lemma_entries_upto(node, lo, hi, n - 1);
        assert(e == p.push(m) + ce);
        assert(forall|i: int| 0 <= i < p.len() ==> e[i] == p[i]);
        assert(e[p.len() as int] == m);
        assert(forall|i: int| p.len() < i < e.len() ==> e[i] == ce[i - p.len() - 1]);
        assert(node.edge_hi(hi, n - 2) == Some(m.0));
        assert(clo == Some(m.0));
        assert(node.lookup(m.0) == Some(m.1)) by {
            lemma_rank_unique(node.keys@, m.0, n - 2);
        }
        assert(below(m.0, chi));
        assert forall|i: int| 0 <= i < e.len() implies above(lo, (#[trigger] e[i]).0) && below(
            e[i].0,
            chi,
        ) by {
            if i < p.len() {
                assert(e[i] == p[i]);
                assert(lt(p[i].0, m.0));
            } else if i > p.len() {
                assert(e[i] == ce[i - p.len() - 1]);
            }
        }
        assert forall|a: int, b: int| 0 <= a < b < e.len() implies lt(e[a].0, e[b].0) by {
            if b < p.len() {
                assert(lt(p[a].0, p[b].0));
            } else if b == p.len() {
                assert(lt(p[a].0, m.0));
            } else {
                let y = ce[b - p.len() - 1];
                assert(e[b] == y);
                assert(lt(m.0, y.0));
                if a < p.len() {
                    assert(lt(p[a].0, m.0));
                } else if a == p.len() {
                } else {
                    assert(e[a] == ce[a - p.len() - 1]);
                }
            }
        }
        assert forall|i: int| 0 <= i < e.len() implies node.lookup((#[trigger] e[i]).0) == Some(
            e[i].1,
        ) by {
            if i < p.len() {
                assert(e[i] == p[i]);
            } else if i > p.len() {
                assert(e[i] == ce[i - p.len() - 1]);
            }
        }
        assert forall|x: K| (#[trigger] node.lookup(x)) is Some && below(x, chi) implies exists|
            i: int,
        |
            0 <= i < e.len() && (#[trigger] e[i]).0 == x by {
            lemma_rank(node.keys@, x);
            let r = rank(node.keys@, x);
            if x == m.0 {
                assert(e[p.len() as int].0 == x);
            } else if lt(x, m.0) {
                let i = choose|i: int| 0 <= i < p.len() && (#[trigger] p[i]).0 == x;
                assert(e[i].0 == x);
            } else {
                if r < n - 1 {
                    assert(!lt(node.keys[r], x));
                    if r < n - 2 {
                        assert(lt(node.keys[r], node.keys[n - 2]));
                    }
                }
                if r > n - 1 {
                    assert(lt(node.keys[n - 1], x));
                }
                assert(r == n - 1);
                if among(node.keys@, x) {
                    assert(lt(x, node.keys[n - 1]));
                }
                let i = choose|i: int| 0 <= i < ce.len() && (#[trigger] ce[i]).0 == x;
                assert(e[i + p.len() + 1].0 == x);
            }
        }
    }
}

/// The entries of a subtree list what the subtree holds.
pub proof fn lemma_entries<K: Ord, V>(node: Node<K, V>, lo: Option<K>, hi: Option<K>)
    requires
        total_order::<K>(),
        node.ordered_in(lo, hi),
    ensures
        lists(node, node.entries(), lo, hi),
    decreases node, node.edges.len() + 1,
{
    lemma_order::<K>();
    let e = node.entries();
    if node.edges.len() == 0 {
        assert(e.len() == node.keys.len());
        assert(forall|i: int| 0 <= i < e.len() ==> e[i] == (node.keys[i], node.vals[i]));
        assert forall|i: int| 0 <= i < e.len() implies node.lookup((#[trigger] e[i]).0) == Some(
            e[i].1,
        ) by {
            lemma_rank_unique(node.keys@, node.keys[i], i);
        }
        assert forall|x: K| (#[trigger] node.lookup(x)) is Some && below(x, hi) implies exists|
            i: int,
        |
            0 <= i < e.len() && (#[trigger] e[i]).0 == x by {
            assert(e[rank(node.keys@, x)].0 == x);
        }
    } else {
        lemma_entries_upto(node, lo, hi, node.edges.len() as int);
    }
}

/// The fewest entries in a subtree of height `h` whose nodes all hold
/// `MIN_LEN` entries or more is not under this.
pub open spec fn least_count(h: nat) -> nat {
    pow2(2 * h + 2)
}

/// The first `n` children of an internal node hold `n` times the least
/// count of their height or more.
pub proof fn lemma_count_upto<K: Ord, V>(node: Node<K, V>, lo: Option<K>, hi: Option<K>, n: int)
    requires
        node.ordered_in(lo, hi),
        1 <= n <= node.edges.len(),
    ensures
        node.entries_upto(n).len() >= n * least_count((node.height() - 1) as nat),
    decreases node, n,
{
    let c = node.edges[n - 1];
    lemma_count(c, node.edge_lo(lo, n - 1), node.edge_hi(hi, n - 1));
    if n > 1 {
        lemma_count_upto(node, lo, hi, n - 1);
        assert(n * least_count((node.height() - 1) as nat) == (n - 1) * least_count(
            (node.height() - 1) as nat,
        ) + least_count((node.height() - 1) as nat)) by (nonlinear_arith);
    } else {
        assert(1 * least_count((node.height() - 1) as nat) == least_count(
            (node.height() - 1) as nat,
        )) by (nonlinear_arith);
    }
}

/// A subtree whose nodes all hold `MIN_LEN` entries or more holds the least
/// count of its height or more.
pub proof fn lemma_count<K: Ord, V>(node: Node<K, V>, lo: Option<K>, hi: Option<K>)
    requires
        node.ordered_in(lo, hi),
        node.keys.len() >= MIN_LEN,
    ensures
        node.entries().len() >= least_count(node.height()),
    decreases node, node.edges.len() + 1,
{
    if node.edges.len() == 0 {
        assert(pow2(2) == 4) by {
            vstd::arithmetic::power2::lemma2_to64();
        }
    } else {
        let h = (node.height() - 1) as nat;
        lemma_count_upto(node, lo, hi, node.edges.len() as int);
        lemma_pow2_adds(2, 2 * h + 2);
        assert(pow2(2) == 4) by {
            vstd::arithmetic::power2::lemma2_to64();
        }
        lemma_pow2_pos(2 * h + 2);
        assert(node.edges.len() * least_count(h) >= 4 * least_count(h)) by (nonlinear_arith)
            requires
                node.edges.len() >= 4,
                least_count(h) >= 0,
        ;
        assert(2 + (2 * h + 2) == 2 * node.height() + 2);
    }
}

/// The entries that a sequence of references to keys and values points to.
pub open spec fn pointees<K, V>(refs: Seq<(&K, &V)>) -> Seq<(K, V)> {
    refs.map_values(|r: (&K, &V)| (*r.0, *r.1))
}

/// Appends the entries of the subtree under `node` to `out`, in order.
pub fn collect<'a, K: Ord, V>(node: &'a Node<K, V>, out: &mut Vec<(&'a K, &'a V)>)
    requires
        node.shaped(),
    ensures
        pointees(final(out)@) == pointees(old(out)@) + node.entries(),
    decreases node,
{
    let ghost out0 = pointees(out@);
    let n = node.keys.len();
    if node.edges.len() == 0 {
        let mut i: usize = 0;
        proof {
            assert(pointees(out@) =~= out0 + node.entries().subrange(0, 0));
        }
        while i < n
            invariant
                i <= n,
                n == node.keys.len(),
                n == node.vals.len(),
                node.entries() == node.keys@.zip_with(node.vals@),
                pointees(out@) == out0 + node.entries().subrange(0, i as int),
            decreases n - i,
        {
            let ghost before = out@;
            out.push((&node.keys[i], &node.vals[i]));
            proof {
                assert(node.entries().len() == n);
                assert(node.entries()[i as int] == (node.keys[i as int], node.vals[i as int]));
                assert(pointees(out@) =~= pointees(before).push(
                    (node.keys[i as int], node.vals[i as int]),
                ));
                assert(node.entries().subrange(0, i + 1) =~= node.entries().subrange(
                    0,
                    i as int,
                ).push((node.keys[i as int], node.vals[i as int])));
                assert(pointees(out@) =~= out0 + node.entries().subrange(0, i + 1));
            }
            i += 1;
        }
        proof {
            assert(node.entries().subrange(0, n as int) =~= node.entries());
        }
    } else {
        collect(&node.edges[0], out);
        let mut i: usize = 1;
        while i <= n
            invariant
                1 <= i <= n + 1,
                n == node.keys.len(),
                n == node.vals.len(),
                node.edges.len() == n + 1,
                node.shaped(),
                pointees(out@) == out0 + node.entries_upto(i as int),
            decreases n + 1 - i,
        {
            let ghost before = out@;
            out.push((&node.keys[i - 1], &node.vals[i - 1]));
            let ghost pushed = out@;
            proof {
                assert(pointees(pushed) =~= pointees(before).push(
                    (node.keys[i - 1], node.vals[i - 1]),
                ));
            }
            collect(&node.edges[i], out);
            proof {
                assert(pointees(out@) =~= out0 + node.entries_upto(i + 1));
            }
            i += 1;
        }
    }
}

} // verus!
