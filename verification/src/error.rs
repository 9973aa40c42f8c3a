use vstd::prelude::*;

verus! {

/// Why the optimizer refused an input.
#[derive(Clone, Copy, Debug, PartialEq, Eq, Structural)]
pub enum WoaError {
    /// A size or the iteration budget is zero, or the lower bound is above the
    /// upper one.
    InvalidConfiguration,
    /// The lower bound handed to a whale's constructor is above the upper one.
    InvalidBounds,
    /// The best member of a population was asked for before any sort.
    NotSorted,
    /// A position has another length than the search space has dimensions, or
    /// there are more or fewer positions than whales.
    DimensionMismatch,
    /// A coordinate that was to be drawn from the search interval lies outside
    /// it, or the whale that was picked is none of the population.
    OutOfBounds,
}

} // verus!
