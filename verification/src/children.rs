//! The lists of children that directories of the tree own.
//!
//! The list type comes from outside this crate. The items in this module
//! state what the tree relies on; none of these statements is proved here.

use crate::tree::NodeId;
use ecow::EcoVec;
use vstd::prelude::*;

verus! {

/// The nodes that a child list holds, in the order in which they were added.
pub uninterp spec fn child_ids(list: EcoVec<NodeId>) -> Seq<NodeId>;

/// `EcoVec::new`: a list that holds nothing.
#[verifier::external_body]
pub(crate) fn children_new() -> (list: EcoVec<NodeId>)
    ensures
        child_ids(list).len() == 0,
{
    EcoVec::new()
}

/// `EcoVec::len`: the number of nodes held. The outside type keeps its
/// length within what one allocation can hold.
#[verifier::external_body]
pub(crate) fn children_len(list: &EcoVec<NodeId>) -> (n: usize)
    ensures
        n == child_ids(*list).len(),
        n <= isize::MAX,
{
    list.len()
}

/// `EcoVec::as_slice`: the held nodes as a slice, in order.
#[verifier::external_body]
pub(crate) fn children_as_slice(list: &EcoVec<NodeId>) -> (nodes: &[NodeId])
    ensures
        nodes@ == child_ids(*list),
{
    list.as_slice()
}

/// `EcoVec::push`: appends one node. The outside code panics when the new
/// length would not fit an allocation, so the length is bounded here.
#[verifier::external_body]
pub(crate) fn children_push(list: &mut EcoVec<NodeId>, node: NodeId)
    requires
        child_ids(*old(list)).len() < isize::MAX,
    ensures
        child_ids(*final(list)) == child_ids(*old(list)).push(node),
{
    list.push(node)
}

} // verus!
