use vstd::prelude::*;

verus! {

/// Why a co-occurrence count was refused before any counting started.
#[derive(Clone, Copy, Debug, PartialEq, Eq, Structural)]
pub enum CoOccurError {
    /// The coordinate and label sequences differ in length.
    DimensionMismatch,
    /// A radius is zero or negative.
    NonPositiveRadius,
}

} // verus!
