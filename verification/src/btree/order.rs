//! The total order on keys that the tree is sorted by.

use core::cmp::Ordering;
use vstd::laws_cmp::obeys_cmp;
use vstd::laws_eq::obeys_concrete_eq;
use vstd::prelude::*;
use vstd::std_specs::cmp::{OrdSpec, PartialEqSpec, PartialOrdSpec};

verus! {

/// How one key stands to another.
#[derive(Clone, Copy, Debug, PartialEq, Eq)]
pub enum Rel {
    Less,
    Equal,
    Greater,
}

/// `K`'s comparison is a total order whose equality is equality of values.
pub open spec fn total_order<K: Ord>() -> bool {
    obeys_cmp::<K>() && obeys_concrete_eq::<K>()
}

/// `a` is strictly before `b`.
pub open spec fn lt<K: Ord>(a: K, b: K) -> bool {
    a.cmp_spec(&b) == Ordering::Less
}

/// `a` is before `b` or equal to it.
pub open spec fn le<K: Ord>(a: K, b: K) -> bool {
    lt(a, b) || a == b
}

/// `k` lies above the lower bound `lo`, where `None` bounds nothing.
pub open spec fn above<K: Ord>(lo: Option<K>, k: K) -> bool {
    lo matches Some(l) ==> lt(l, k)
}

/// `k` lies below the upper bound `hi`, where `None` bounds nothing.
pub open spec fn below<K: Ord>(k: K, hi: Option<K>) -> bool {
    hi matches Some(h) ==> lt(k, h)
}

/// The laws of a strict total order, for every choice of keys at once.
pub proof fn lemma_order<K: Ord>()
    requires
        total_order::<K>(),
    ensures
        forall|a: K, b: K, c: K| #[trigger] lt(a, b) && #[trigger] lt(b, c) ==> lt(a, c),
        forall|a: K, b: K| #[trigger] lt(a, b) ==> !lt(b, a) && a != b,
        forall|a: K, b: K| !(#[trigger] lt(a, b)) && a != b ==> lt(b, a),
{
    reveal(vstd::laws_cmp::obeys_cmp_partial_ord);
    reveal(vstd::laws_cmp::obeys_cmp_ord);
    reveal(vstd::laws_cmp::obeys_partial_cmp_spec_properties);
    reveal(vstd::laws_eq::obeys_concrete_eq);
    assert forall|a: K, b: K, c: K| #[trigger] lt(a, b) && #[trigger] lt(b, c) implies lt(a, c) by {
        assert(a.partial_cmp_spec(&b) == Some(a.cmp_spec(&b)));
        assert(b.partial_cmp_spec(&c) == Some(b.cmp_spec(&c)));
        assert(a.partial_cmp_spec(&c) == Some(a.cmp_spec(&c)));
    }
    assert forall|a: K, b: K| #[trigger] lt(a, b) implies !lt(b, a) && a != b by {
        assert(a.partial_cmp_spec(&b) == Some(a.cmp_spec(&b)));
        assert(b.partial_cmp_spec(&a) == Some(b.cmp_spec(&a)));
        assert(a.partial_cmp_spec(&a) == Some(a.cmp_spec(&a)));
        assert(a.eq_spec(&a));
    }
    assert forall|a: K, b: K| !(#[trigger] lt(a, b)) && a != b implies lt(b, a) by {
        assert(a.partial_cmp_spec(&b) == Some(a.cmp_spec(&b)));
        assert(b.partial_cmp_spec(&a) == Some(b.cmp_spec(&a)));
        assert(!a.eq_spec(&b));
    }
}

/// Compares two keys.
pub fn compare<K: Ord>(a: &K, b: &K) -> (r: Rel)
    requires
        total_order::<K>(),
    ensures
        r == Rel::Less <==> lt(*a, *b),
        r == Rel::Equal <==> *a == *b,
        r == Rel::Greater <==> lt(*b, *a),
{
    proof {
        lemma_order::<K>();
        reveal(vstd::laws_cmp::obeys_cmp_partial_ord);
        reveal(vstd::laws_cmp::obeys_cmp_ord);
        reveal(vstd::laws_cmp::obeys_partial_cmp_spec_properties);
        reveal(vstd::laws_eq::obeys_concrete_eq);
        assert(a.partial_cmp_spec(b) == Some(a.cmp_spec(b)));
        assert(b.partial_cmp_spec(a) == Some(b.cmp_spec(a)));
    }
    match a.cmp(b) {
        Ordering::Less => Rel::Less,
        Ordering::Equal => Rel::Equal,
        Ordering::Greater => Rel::Greater,
    }
}

} // verus!
