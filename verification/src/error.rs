//! The errors of the layout engine.

use vstd::prelude::*;

verus! {

/// The ways in which laying out or assigning a circuit can fail. Every error is
/// fatal to the synthesis pass in which it occurs.
#[derive(Clone, Copy, Debug, PartialEq, Eq)]
pub enum Error {
    /// A protocol violation: a table column used twice, table columns of
    /// different lengths, malformed row ranges, a value that is not known
    /// where one is needed, or a row outside the window of the context that
    /// was asked to write it.
    Synthesis,
    /// A column or a row outside the allocated storage was addressed.
    BoundsFailure,
    /// The grid of height `2^current_k` has too few usable rows.
    NotEnoughRowsAvailable {
        /// The size parameter of the grid.
        current_k: u32,
    },
    /// A constant was requested, but no column is configured to hold constants.
    NotEnoughColumnsForConstants,
}

impl Error {
    /// The error for a grid of size parameter `current_k` that is too small.
    pub fn not_enough_rows_available(current_k: u32) -> (e: Error)
        ensures
            e == (Error::NotEnoughRowsAvailable { current_k }),
    {
        Error::NotEnoughRowsAvailable { current_k }
    }
}

} // verus!
