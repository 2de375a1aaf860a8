//! Error kinds of the engine. All are fatal to the run that raises them.

use vstd::prelude::*;

verus! {

/// A fatal error of one annealing run.
#[derive(Clone, Copy, PartialEq, Eq, Structural, Debug)]
pub enum RunError {
    /// The point set is malformed: rows of differing dimensionality,
    /// dimensionality zero, or values outside the supported range.
    InputShape,
    /// The configured move generator needs a longer tour than the point set
    /// provides (or the point set is empty).
    Precondition,
}

} // verus!
