//! Edge factory.

use vstd::prelude::*;

use crate::types::Edge;

verus! {

/// A directed edge from `source` to `target`.
pub fn create(id: u128, source: u128, target: u128) -> (e: Edge)
    ensures
        e == (Edge { id, source, target }),
{
    Edge { id, source, target }
}

} // verus!
