//! The equality constraints of a circuit.

use vstd::prelude::*;
use crate::cell::{CopyCell, Equality};
use crate::column::{Any, Column};
use crate::error::Error;

verus! {

/// The equality constraints of a circuit, in the order in which they were
/// registered. Key material is derived from this list, and the derivation
/// depends on the order.
#[derive(Debug)]
pub struct Assembly {
    copies: Vec<Equality>,
}

impl View for Assembly {
    type V = Seq<Equality>;

    closed spec fn view(&self) -> Seq<Equality> {
        self.copies@
    }
}

impl Assembly {
    /// A builder that holds no constraint.
    pub fn new() -> (p: Self)
        ensures
            p@ == Seq::<Equality>::empty(),
    {
        Assembly { copies: Vec::new() }
    }

    /// Registers that the two positions hold equal values.
    pub fn copy(
        &mut self,
        left_column: Column<Any>,
        left_row: usize,
        right_column: Column<Any>,
        right_row: usize,
    ) -> (r: Result<(), Error>)
        ensures
            r is Ok,
            final(self)@ == old(self)@.push(
                (
                    CopyCell { column: left_column, row: left_row },
                    CopyCell { column: right_column, row: right_row },
                ),
            ),
    {
        self.copies.push(
            (
                CopyCell { column: left_column, row: left_row },
                CopyCell { column: right_column, row: right_row },
            ),
        );
        Ok(())
    }

    /// The number of constraints registered so far.
    pub fn len(&self) -> (n: usize)
        ensures
            n == self@.len(),
    {
        self.copies.len()
    }

    /// The constraint registered at position `i`.
    pub fn get(&self, i: usize) -> (c: Equality)
        requires
            i < self@.len(),
        ensures
            c == self@[i as int],
    {
        self.copies[i]
    }
}

} // verus!
