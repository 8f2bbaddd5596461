//! A circuit as the layout engine sees it: what its configuration has fixed,
//! and the steps of its synthesis.

use vstd::prelude::*;
use crate::cell::Cell;
use crate::column::{Column, Fixed, Instance};
use crate::shape::RegionOp;
use crate::table::TableCell;

verus! {

/// What the configuration of a circuit has fixed before the circuit is laid
/// out.
#[derive(Clone, Debug)]
pub struct ConstraintSystem {
    pub num_fixed_columns: usize,
    pub num_advice_columns: usize,
    pub num_instance_columns: usize,
    pub num_selectors: usize,
    /// The fixed columns that may hold constants.
    pub constants: Vec<Column<Fixed>>,
    /// The number of rows at the end of the grid that are kept for blinding.
    pub blinding_factors: usize,
    /// The degree of the circuit's constraints.
    pub degree: usize,
}

/// A [`ConstraintSystem`] as mathematical values.
pub struct ConstraintSystemView {
    pub num_fixed_columns: usize,
    pub num_advice_columns: usize,
    pub num_instance_columns: usize,
    pub num_selectors: usize,
    pub constants: Seq<Column<Fixed>>,
    pub blinding_factors: usize,
    pub degree: usize,
}

impl ConstraintSystemView {
    /// The smallest grid that the circuit fits in: the rows kept for
    /// blinding, the row before them, the first row, and one row more.
    pub open spec fn minimum_rows(self) -> nat {
        (self.blinding_factors + 3) as nat
    }

    /// The machine can count the rows that the circuit needs at the least.
    pub open spec fn wf(self) -> bool {
        self.minimum_rows() <= usize::MAX
    }
}

impl View for ConstraintSystem {
    type V = ConstraintSystemView;

    open spec fn view(&self) -> ConstraintSystemView {
        ConstraintSystemView {
            num_fixed_columns: self.num_fixed_columns,
            num_advice_columns: self.num_advice_columns,
            num_instance_columns: self.num_instance_columns,
            num_selectors: self.num_selectors,
            constants: self.constants@,
            blinding_factors: self.blinding_factors,
            degree: self.degree,
        }
    }
}

/// A copy of `columns`.
pub fn copy_columns(columns: &Vec<Column<Fixed>>) -> (copy: Vec<Column<Fixed>>)
    ensures
        copy@ == columns@,
{
    let mut copy: Vec<Column<Fixed>> = Vec::new();
    let mut i: usize = 0;
    while i < columns.len()
        invariant
            i <= columns@.len(),
            copy@ == columns@.subrange(0, i as int),
        decreases columns@.len() - i,
    {
        copy.push(columns[i]);
        i = i + 1;
        assert(copy@ =~= columns@.subrange(0, i as int));
    }
    assert(columns@.subrange(0, i as int) =~= columns@);
    copy
}

impl ConstraintSystem {
    /// The number of rows at the end of the grid that are kept for blinding.
    pub fn blinding_factors(&self) -> (n: usize)
        ensures
            n == self@.blinding_factors,
    {
        self.blinding_factors
    }

    /// The smallest number of rows that the circuit fits in.
    pub fn minimum_rows(&self) -> (n: usize)
        requires
            self@.wf(),
        ensures
            n == self@.minimum_rows(),
    {
        self.blinding_factors + 3
    }

    /// The degree of the circuit's constraints.
    pub fn degree(&self) -> (d: usize)
        ensures
            d == self@.degree,
    {
        self.degree
    }

    /// A copy of this constraint system.
    pub fn copy(&self) -> (copy: Self)
        ensures
            copy@ == self@,
    {
        ConstraintSystem {
            num_fixed_columns: self.num_fixed_columns,
            num_advice_columns: self.num_advice_columns,
            num_instance_columns: self.num_instance_columns,
            num_selectors: self.num_selectors,
            constants: copy_columns(&self.constants),
            blinding_factors: self.blinding_factors,
            degree: self.degree,
        }
    }
}

/// One step of the synthesis of a circuit.
#[derive(Clone, Debug)]
pub enum Step<F> {
    /// Lay out a region whose routine takes the steps `ops`.
    AssignRegion { name: String, ops: Vec<RegionOp<F>> },
    /// Lay out a batch of regions, one for each routine of `assignments`,
    /// and assign them in parallel.
    AssignRegions { name: String, assignments: Vec<Vec<RegionOp<F>>> },
    /// Lay out a lookup table whose routine assigns the cells `cells`.
    AssignTable { name: String, cells: Vec<TableCell<F>> },
    /// Constrain `cell` to equal the instance cell at `row` of `instance`.
    ConstrainInstance { cell: Cell, instance: Column<Instance>, row: usize },
}

/// A [`Step`] as mathematical values.
pub enum StepView<F> {
    AssignRegion { ops: Seq<RegionOp<F>> },
    AssignRegions { scripts: Seq<Seq<RegionOp<F>>> },
    AssignTable { cells: Seq<TableCell<F>> },
    ConstrainInstance { cell: Cell, instance: Column<Instance>, row: usize },
}

impl<F> View for Step<F> {
    type V = StepView<F>;

    open spec fn view(&self) -> StepView<F> {
        match self {
            Step::AssignRegion { name, ops } => StepView::AssignRegion { ops: ops@ },
            Step::AssignRegions { name, assignments } => StepView::AssignRegions {
                scripts: Seq::new(assignments@.len(), |i: int| assignments@[i]@),
            },
            Step::AssignTable { name, cells } => StepView::AssignTable { cells: cells@ },
            Step::ConstrainInstance { cell, instance, row } => StepView::ConstrainInstance {
                cell: *cell,
                instance: *instance,
                row: *row,
            },
        }
    }
}

/// What each of `steps` is.
pub open spec fn step_views<F>(steps: Seq<Step<F>>) -> Seq<StepView<F>> {
    Seq::new(steps.len(), |i: int| steps[i]@)
}

/// A circuit: what its configuration has fixed, and the steps of its
/// synthesis.
#[derive(Clone, Debug)]
pub struct Circuit<F> {
    pub config: ConstraintSystem,
    pub steps: Vec<Step<F>>,
}

} // verus!
