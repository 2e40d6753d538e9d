//! Preprocessing settings.
use vstd::prelude::*;

verus! {

/// Feature scaling strategy.
#[derive(Debug, Clone)]
pub enum Scaling {
    /// Subtract the mean, divide by the standard deviation.
    Standard,
    /// Subtract the minimum, divide by the range.
    MinMax,
}

} // verus!
