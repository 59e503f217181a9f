//! Op properties of the reordered format.
use vstd::prelude::*;
use crate::op::{FutureInnerContent, future_op_prop};

verus! {

/// The property written for content of a newer format version.
pub fn get_future_op_prop(op: &FutureInnerContent) -> (r: i32)
    ensures
        r == future_op_prop(*op),
{
    match op {
        FutureInnerContent::Counter(_) => 0,
        FutureInnerContent::Unknown { prop, .. } => *prop,
    }
}

} // verus!
