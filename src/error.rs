use vstd::prelude::*;

verus! {

/// Failure of a numeric operation on sequences or matrices.
#[derive(Debug, Clone, Copy, PartialEq, Eq, Structural)]
pub enum MathError {
    /// Two operands whose shapes do not agree: sequences of different lengths,
    /// or matrices whose inner dimensions differ.
    DimensionMismatch,
}

/// Failure of a metric store operation.
#[derive(Debug, Clone, Copy, PartialEq, Eq, Structural)]
pub enum MetricsError {
    /// The key is not one of the store's registered metric names.
    KeyNotFound,
}

} // verus!
