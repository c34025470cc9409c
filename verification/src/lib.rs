//! PageRank-style document ranking over an exact-arithmetic linear-algebra
//! core: rational numbers, vectors and matrices with validated kinds
//! (probability, stochastic, reduced row echelon), a weighted connection
//! graph that compiles into a transition matrix, a steady-state solver, and
//! a query-time ranker over a registry of document records.

use vstd::prelude::*;

pub mod graph_rank;
pub mod matrix;
pub mod page_rank;
pub mod rational;
pub mod registry;
pub mod vector;

verus! {

/// The ways a ranking computation can fail.
///
/// Validating constructors report exactly why a value was rejected instead
/// of collapsing every failure into an absent result.
#[derive(Clone, Copy, Debug, PartialEq, Eq, Structural)]
pub enum RankError {
    /// Supplied data does not have the declared dimensions.
    DimensionMismatch,
    /// A vector's entries are negative or do not sum to one.
    NotAProbabilityDistribution,
    /// Some column of a matrix is not a probability distribution.
    NotColumnStochastic,
    /// A query matched no document.
    EmptyMatchSet,
    /// The steady-state solver could not produce a stationary distribution.
    ConvergenceFailure,
    /// More live nodes than the requested matrix size can hold.
    CapacityExceeded,
    /// An exact rational intermediate no longer fits the machine word.
    NumericOverflow,
}

} // verus!
