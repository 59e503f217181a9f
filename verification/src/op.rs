//! Op content written by a newer version of the format.
use vstd::prelude::*;
use crate::encoding::value::OwnedValue;

verus! {

/// Content this version cannot apply: a counter increment (a double, held
/// by its IEEE-754 bits), or an op of an unknown kind kept with its
/// property and its value.
#[derive(Debug)]
pub enum FutureInnerContent {
    Counter(u64),
    Unknown { prop: i32, value: OwnedValue },
}

/// The property written for such content: 0 for a counter increment, the
/// kept property otherwise.
pub open spec fn future_op_prop(op: FutureInnerContent) -> i32 {
    match op {
        FutureInnerContent::Counter(_) => 0,
        FutureInnerContent::Unknown { prop, .. } => prop,
    }
}

} // verus!
