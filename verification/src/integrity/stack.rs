//! The stack of pages on the way down a tree.

use crate::btree::MAX_BTREE_DEPTH;
use crate::pager::page::PageId;
use vstd::prelude::*;

verus! {

/// A vector of bounded capacity that lives in place.
#[verifier::external_type_specification]
#[verifier::external_body]
#[verifier::reject_recursive_types(T)]
pub struct ExBoundedVec<T, const N: usize>(heapless::Vec<T, N>);

/// The pages on a stack, the root first.
pub uninterp spec fn stacked(s: heapless::Vec<PageId, MAX_BTREE_DEPTH>) -> Seq<PageId>;

/// A stack without pages.
///
/// Calls `heapless::Vec::new`. Claimed: the vector has no elements.
#[verifier::external_body]
fn new_stack() -> (r: heapless::Vec<PageId, MAX_BTREE_DEPTH>)
    ensures
        stacked(r) == Seq::<PageId>::empty(),
{
    heapless::Vec::new()
}

/// A stack for the way down from the root of a tree, with nothing on it yet.
pub fn fresh_descent_stack() -> (r: heapless::Vec<PageId, MAX_BTREE_DEPTH>)
    ensures
        stacked(r) == Seq::<PageId>::empty(),
{
    new_stack()
}

} // verus!
