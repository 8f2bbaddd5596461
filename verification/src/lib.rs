//! The layout and assignment engine of a PLONKish circuit compiler.
//!
//! A circuit is a sequence of regions. Each region is measured, placed on the
//! grid at the first row at which all of its columns are free, and assigned
//! there. The engine collects the fixed cells, the selectors and the equality
//! constraints from which keys are derived.
//!
//! - [`shape`] measures a region, and [`occupancy`] places it.
//! - [`region`] assigns the cells of a placed region, [`constants`] the
//!   constants that regions ask for, and [`table`] lookup tables.
//! - [`single_pass`] is the layouter that ties these together, and [`batch`]
//!   its way of assigning several regions in parallel.
//! - [`assembly`] stores what key generation needs of a circuit, and
//!   [`keygen`] runs a circuit through it.
//! - [`round_trip`] shows that the parallel way registers the equality
//!   constraints of the sequential one.

pub mod error;
pub mod value;
pub mod column;
pub mod cell;
pub mod permutation;
pub mod assembly;
pub mod shape;
pub mod occupancy;
pub mod region;
pub mod table;
pub mod circuit;
pub mod constants;
pub mod batch;
pub mod single_pass;
pub mod round_trip;
pub mod keygen;
