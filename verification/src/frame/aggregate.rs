//! Aggregation operations for grouped data.
use vstd::prelude::*;

verus! {

/// An aggregation over the values of a group.
#[derive(Debug, Clone, Copy)]
pub enum Agg {
    Sum,
    Mean,
    Min,
    Max,
    Count,
}

} // verus!
