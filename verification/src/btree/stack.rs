//! The stack of checkpoints of a batch search: a fixed-capacity vector of
//! the `arrayvec` crate, which needs no memory from the allocator.
//!
//! A checkpoint is a pair of numbers: the depth of a node on the way from
//! the root to the cursor, and the index of an edge of that node.

use crate::btree::node::MAX_DEPTH;
use arrayvec::ArrayVec;
use vstd::prelude::*;

verus! {

#[verifier::external_type_specification]
#[verifier::external_body]
#[verifier::reject_recursive_types(T)]
pub struct ExArrayVec<T, const CAP: usize>(ArrayVec<T, CAP>);

/// The checkpoints on a stack, the oldest first.
pub uninterp spec fn stack_items(stack: ArrayVec<(usize, usize), MAX_DEPTH>) -> Seq<(usize, usize)>;

/// `ArrayVec::new`: a vector of length 0. It panics only for a capacity
/// above `u32::MAX`, which `MAX_DEPTH` is not.
#[verifier::external_body]
pub(crate) fn stack_new() -> (stack: ArrayVec<(usize, usize), MAX_DEPTH>)
    ensures
        stack_items(stack) == Seq::<(usize, usize)>::empty(),
{
    ArrayVec::new()
}

/// `ArrayVec::push`: appends the item. It panics where the vector is full,
/// that is where its length is the capacity, so that is ruled out.
#[verifier::external_body]
pub(crate) fn stack_push(stack: &mut ArrayVec<(usize, usize), MAX_DEPTH>, item: (usize, usize))
    requires
        stack_items(*old(stack)).len() < MAX_DEPTH,
    ensures
        stack_items(*final(stack)) == stack_items(*old(stack)).push(item),
{
    stack.push(item)
}

/// `ArrayVec::pop`: removes the last item and returns it, or returns `None`
/// and changes nothing where the vector is empty.
#[verifier::external_body]
pub(crate) fn stack_pop(stack: &mut ArrayVec<(usize, usize), MAX_DEPTH>) -> (item: Option<
    (usize, usize),
>)
    ensures
        stack_items(*old(stack)).len() == 0 ==> item is None && stack_items(*final(stack))
            == stack_items(*old(stack)),
        stack_items(*old(stack)).len() > 0 ==> item == Some(stack_items(*old(stack)).last())
            && stack_items(*final(stack)) == stack_items(*old(stack)).drop_last(),
{
    stack.pop()
}

} // verus!
