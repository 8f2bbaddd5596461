//! The assignment of a region that has been placed.

use vstd::prelude::*;
use crate::assembly::{Assembly, AssemblyView};
use crate::cell::{Cell, CopyCell, Equality, RegionIndex, RegionStart};
use crate::column::{Advice, Any, Column, Fixed, Instance, Selector};
use crate::error::Error;
use crate::shape::RegionOp;
use crate::value::{Assigned, Value};

verus! {

/// A request to assign a constant and to constrain a cell to equal it.
pub type ConstantRequest<F> = (Assigned<F>, Cell);

/// Whether the absolute row of `cell` can be computed: its region has been
/// placed, and the row is a number that the machine holds.
pub open spec fn cell_in_reach(regions: Seq<RegionStart>, cell: Cell) -> bool {
    &&& cell.region_index.0 < regions.len()
    &&& regions[cell.region_index.0 as int].0 + cell.row_offset <= usize::MAX
}

/// The absolute row of `cell`: the start of its region plus its offset.
pub open spec fn global_row(regions: Seq<RegionStart>, cell: Cell) -> usize {
    (regions[cell.region_index.0 as int].0 + cell.row_offset) as usize
}

/// Whether the absolute rows that the step `op` of region `region_index`
/// speaks of can be computed.
pub open spec fn op_in_reach<F>(
    regions: Seq<RegionStart>,
    region_index: RegionIndex,
    op: RegionOp<F>,
) -> bool {
    &&& region_index.0 < regions.len()
    &&& match op {
        RegionOp::ConstrainConstant { cell, constant } => cell_in_reach(regions, cell),
        RegionOp::ConstrainEqual { left, right } => cell_in_reach(regions, left) && cell_in_reach(
            regions,
            right,
        ),
        _ => op.touches() matches Some((column, offset)) && regions[region_index.0 as int].0
            + offset <= usize::MAX,
    }
}

/// Whether the absolute rows that the steps `ops` of region `region_index`
/// speak of can be computed.
pub open spec fn ops_in_reach<F>(
    regions: Seq<RegionStart>,
    region_index: RegionIndex,
    ops: Seq<RegionOp<F>>,
) -> bool {
    forall|i: int| 0 <= i < ops.len() ==> op_in_reach(regions, region_index, #[trigger] ops[i])
}

/// What the assignment of a region has done so far: the assembly that it
/// writes to, and the constants that it has requested.
pub struct RegionView<F> {
    pub cs: AssemblyView<F>,
    pub constants: Seq<ConstantRequest<F>>,
}

impl<F> RegionView<F> {
    /// The assignment of a region that has done nothing yet.
    pub open spec fn begin(cs: AssemblyView<F>) -> Self {
        RegionView { cs, constants: Seq::empty() }
    }

    /// This state with the assembly `cs`, or the error.
    pub open spec fn with_cs(self, cs: Result<AssemblyView<F>, Error>) -> Result<Self, Error> {
        match cs {
            Ok(cs) => Ok(RegionView { cs, ..self }),
            Err(e) => Err(e),
        }
    }

    /// This state with one more constant requested.
    pub open spec fn request(self, constant: Assigned<F>, cell: Cell) -> Self {
        RegionView { constants: self.constants.push((constant, cell)), ..self }
    }

    /// Assigning the instance value at `row` of `instance` to the advice cell
    /// at the absolute row `advice_row`, and constraining the two to be equal.
    pub open spec fn assign_advice_from_instance(
        self,
        instance: Column<Instance>,
        row: usize,
        advice: Column<Advice>,
        advice_row: usize,
    ) -> Result<Self, Error> {
        match self.cs.query_instance(row) {
            Err(e) => Err(e),
            Ok(value) => self.with_cs(
                self.cs.copy(advice.spec_any(), advice_row, instance.spec_any(), row),
            ),
        }
    }

    /// Taking the step `op` of region `region_index`: the row offsets of the
    /// step are counted from the start of the region, and those of the cells
    /// that it names from the starts of their regions.
    pub open spec fn step(
        self,
        regions: Seq<RegionStart>,
        region_index: RegionIndex,
        op: RegionOp<F>,
    ) -> Result<Self, Error> {
        let start = regions[region_index.0 as int].0;
        match op {
            RegionOp::EnableSelector { selector, offset } => self.with_cs(
                self.cs.enable_selector(selector, (start + offset) as usize),
            ),
            RegionOp::AssignAdvice { column, offset, to } => Ok(self),
            RegionOp::AssignAdviceFromConstant { column, offset, constant } => Ok(
                self.request(
                    constant,
                    Cell { region_index, row_offset: offset, column: column.spec_any() },
                ),
            ),
            RegionOp::AssignAdviceFromInstance {
                instance,
                row,
                advice,
                offset,
            } => self.assign_advice_from_instance(instance, row, advice, (start + offset) as usize),
            RegionOp::AssignFixed { column, offset, to } => self.with_cs(
                self.cs.assign_fixed(column, (start + offset) as usize, to),
            ),
            RegionOp::ConstrainConstant { cell, constant } => Ok(self.request(constant, cell)),
            RegionOp::ConstrainEqual { left, right } => self.with_cs(
                self.cs.copy(
                    left.column,
                    global_row(regions, left),
                    right.column,
                    global_row(regions, right),
                ),
            ),
        }
    }

    /// Taking the steps `ops` of region `region_index` in their order, up to
    /// the first that fails.
    pub open spec fn run(
        self,
        regions: Seq<RegionStart>,
        region_index: RegionIndex,
        ops: Seq<RegionOp<F>>,
    ) -> Result<Self, Error>
        decreases ops.len(),
    {
        if ops.len() == 0 {
            Ok(self)
        } else {
            match self.run(regions, region_index, ops.drop_last()) {
                Err(e) => Err(e),
                Ok(before) => before.step(regions, region_index, ops.last()),
            }
        }
    }

    /// What the assignment has done once the steps `ops` were to be taken:
    /// what the steps before the first failing one have done. A step that
    /// fails does nothing.
    pub open spec fn after_run(
        self,
        regions: Seq<RegionStart>,
        region_index: RegionIndex,
        ops: Seq<RegionOp<F>>,
    ) -> Self
        decreases ops.len(),
    {
        if ops.len() == 0 {
            self
        } else {
            match self.run(regions, region_index, ops.drop_last()) {
                Err(e) => self.after_run(regions, region_index, ops.drop_last()),
                Ok(before) => match before.step(regions, region_index, ops.last()) {
                    Ok(after) => after,
                    Err(e) => before,
                },
            }
        }
    }
}

/// The context in which the routine of a placed region assigns its cells. It
/// turns each row offset into an absolute row and hands the assignment on to
/// the assembly; the constants that the routine asks for are collected, to
/// be assigned when the region is done.
#[derive(Debug)]
pub struct SingleChipLayouterRegion<'r, F> {
    pub cs: &'r mut Assembly<F>,
    pub regions: &'r Vec<RegionStart>,
    pub region_index: RegionIndex,
    /// Stores the constants to be assigned, and the cells to which they are copied.
    pub constants: Vec<ConstantRequest<F>>,
}

impl<'r, F> View for SingleChipLayouterRegion<'r, F> {
    type V = RegionView<F>;

    open spec fn view(&self) -> RegionView<F> {
        RegionView { cs: (*self.cs)@, constants: self.constants@ }
    }
}

impl<'r, F: Copy> SingleChipLayouterRegion<'r, F> {
    /// Whether `other` is a context of the same region over the same starts.
    pub open spec fn same_region(&self, other: &Self) -> bool {
        &&& self.regions == other.regions
        &&& self.region_index == other.region_index
    }

    /// The context of the region `region_index`, which has been placed:
    /// `regions` holds its start row. No constant is asked for yet.
    pub fn new(
        cs: &'r mut Assembly<F>,
        regions: &'r Vec<RegionStart>,
        region_index: RegionIndex,
    ) -> (region: Self)
        ensures
            *region.cs == *old(cs),
            *final(cs) == *final(region.cs),
            region.regions == regions,
            region.region_index == region_index,
            region.constants@ == Seq::<ConstantRequest<F>>::empty(),
    {
        SingleChipLayouterRegion { cs, regions, region_index, constants: Vec::new() }
    }

    /// The absolute row of the row `row_offset` of this region.
    pub fn global_offset(&self, row_offset: usize) -> (row: usize)
        requires
            self.region_index.0 < self.regions@.len(),
            self.regions@[self.region_index.0 as int].0 + row_offset <= usize::MAX,
        ensures
            row == self.regions@[self.region_index.0 as int].0 + row_offset,
    {
        self.regions[self.region_index.0].0 + row_offset
    }

    /// The absolute row of `cell`.
    fn global_row(&self, cell: &Cell) -> (row: usize)
        requires
            cell_in_reach(self.regions@, *cell),
        ensures
            row == global_row(self.regions@, *cell),
    {
        self.regions[cell.region_index.0].0 + cell.row_offset
    }

    /// Switches `selector` on at the row `offset` of the region. Fails as the
    /// assembly does.
    pub fn enable_selector(&mut self, selector: &Selector, offset: usize) -> (r: Result<
        (),
        Error,
    >)
        requires
            old(self).cs@.wf(),
            op_in_reach(
                old(self).regions@,
                old(self).region_index,
                RegionOp::<F>::EnableSelector { selector: *selector, offset },
            ),
        ensures
            final(self).cs@.wf(),
            *final(final(self).cs) == *final(old(self).cs),
            final(self).same_region(old(self)),
            match old(self)@.step(
                old(self).regions@,
                old(self).region_index,
                RegionOp::EnableSelector { selector: *selector, offset },
            ) {
                Ok(after) => r is Ok && final(self)@ == after,
                Err(e) => r == Err::<(), Error>(e) && final(self)@ == old(self)@,
            },
    {
        let row = self.global_offset(offset);
        self.cs.enable_selector(selector, row)
    }

    /// Names a column for what the region assigns next.
    pub fn name_column(&mut self, annotation: &str, column: Column<Any>)
        ensures
            final(self)@ == old(self)@,
            *final(final(self).cs) == *final(old(self).cs),
            final(self).same_region(old(self)),
    {
        self.cs.annotate_column(annotation, column);
    }

    /// Reads the advice cell at `column` and the row `offset` of the region.
    pub fn query_advice(&self, column: Column<Advice>, offset: usize) -> (r: Result<
        Assigned<F>,
        Error,
    >)
        requires
            self.region_index.0 < self.regions@.len(),
            self.regions@[self.region_index.0 as int].0 + offset <= usize::MAX,
        ensures
            r == Ok::<Assigned<F>, Error>(Assigned::Zero),
    {
        let row = self.global_offset(offset);
        self.cs.query_advice(column, row)
    }

    /// Reads the fixed cell at `column` and the row `offset` of the region.
    /// Fails as the assembly does.
    pub fn query_fixed(&self, column: Column<Fixed>, offset: usize) -> (r: Result<
        Assigned<F>,
        Error,
    >)
        requires
            self@.cs.wf(),
            self.region_index.0 < self.regions@.len(),
            self.regions@[self.region_index.0 as int].0 + offset <= usize::MAX,
        ensures
            r == self@.cs.query_fixed(
                column,
                (self.regions@[self.region_index.0 as int].0 + offset) as usize,
            ),
    {
        let row = self.global_offset(offset);
        self.cs.query_fixed(column, row)
    }

    /// Assigns `to` to the advice cell at `column` and the row `offset` of
    /// the region, and returns the cell.
    pub fn assign_advice(
        &mut self,
        column: Column<Advice>,
        offset: usize,
        to: Value<Assigned<F>>,
    ) -> (r: Result<Cell, Error>)
        requires
            old(self).cs@.wf(),
            op_in_reach(
                old(self).regions@,
                old(self).region_index,
                RegionOp::AssignAdvice { column, offset, to },
            ),
        ensures
            final(self).cs@.wf(),
            *final(final(self).cs) == *final(old(self).cs),
            final(self).same_region(old(self)),
            final(self)@ == old(self)@,
            r == Ok::<Cell, Error>(
                Cell {
                    region_index: old(self).region_index,
                    row_offset: offset,
                    column: column.spec_any(),
                },
            ),
    {
        let row = self.global_offset(offset);
        let _ = self.cs.assign_advice(column, row, to);
        Ok(Cell { region_index: self.region_index, row_offset: offset, column: column.any() })
    }

    /// Assigns `constant` to the advice cell at `column` and the row
    /// `offset` of the region, and asks for the constant to be assigned and
    /// the cell to be constrained to equal it. Returns the cell.
    pub fn assign_advice_from_constant(
        &mut self,
        column: Column<Advice>,
        offset: usize,
        constant: Assigned<F>,
    ) -> (r: Result<Cell, Error>)
        requires
            old(self).cs@.wf(),
            op_in_reach(
                old(self).regions@,
                old(self).region_index,
                RegionOp::AssignAdviceFromConstant { column, offset, constant },
            ),
        ensures
            final(self).cs@.wf(),
            *final(final(self).cs) == *final(old(self).cs),
            final(self).same_region(old(self)),
            r is Ok,
            Ok::<RegionView<F>, Error>(final(self)@) == old(self)@.step(
                old(self).regions@,
                old(self).region_index,
                RegionOp::AssignAdviceFromConstant { column, offset, constant },
            ),
            r == Ok::<Cell, Error>(
                Cell {
                    region_index: old(self).region_index,
                    row_offset: offset,
                    column: column.spec_any(),
                },
            ),
    {
        let advice = self.assign_advice(column, offset, Value::known(constant))?;
        self.constrain_constant(advice, constant)?;
        Ok(advice)
    }

    /// Reads the instance cell at the absolute row `row` of `instance`,
    /// assigns its value to the advice cell at `advice` and the row `offset`
    /// of the region, and constrains the two cells to be equal. Returns the
    /// cell and the value. Fails as the assembly does.
    pub fn assign_advice_from_instance(
        &mut self,
        instance: Column<Instance>,
        row: usize,
        advice: Column<Advice>,
        offset: usize,
    ) -> (r: Result<(Cell, Value<F>), Error>)
        requires
            old(self).cs@.wf(),
            op_in_reach(
                old(self).regions@,
                old(self).region_index,
                RegionOp::<F>::AssignAdviceFromInstance { instance, row, advice, offset },
            ),
        ensures
            final(self).cs@.wf(),
            *final(final(self).cs) == *final(old(self).cs),
            final(self).same_region(old(self)),
            match old(self)@.step(
                old(self).regions@,
                old(self).region_index,
                RegionOp::AssignAdviceFromInstance { instance, row, advice, offset },
            ) {
                Ok(after) => final(self)@ == after && (r matches Ok((cell, value)) && cell == (Cell {
                    region_index: old(self).region_index,
                    row_offset: offset,
                    column: advice.spec_any(),
                }) && value.inner is None),
                Err(e) => r matches Err(f) && f == e && final(self)@ == old(self)@,
            },
    {
        let value = self.cs.query_instance(instance, row)?;
        let to: Value<Assigned<F>> = match value.inner {
            Some(v) => Value::known(Assigned::Trivial(v)),
            None => Value::unknown(),
        };
        let cell = self.assign_advice(advice, offset, to)?;
        let advice_row = self.global_row(&cell);
        self.cs.copy(cell.column, advice_row, instance.any(), row)?;
        Ok((cell, value))
    }

    /// Assigns `to` to the fixed cell at `column` and the row `offset` of the
    /// region, and returns the cell. Fails as the assembly does.
    pub fn assign_fixed(
        &mut self,
        column: Column<Fixed>,
        offset: usize,
        to: Value<Assigned<F>>,
    ) -> (r: Result<Cell, Error>)
        requires
            old(self).cs@.wf(),
            op_in_reach(
                old(self).regions@,
                old(self).region_index,
                RegionOp::AssignFixed { column, offset, to },
            ),
        ensures
            final(self).cs@.wf(),
            *final(final(self).cs) == *final(old(self).cs),
            final(self).same_region(old(self)),
            match old(self)@.step(
                old(self).regions@,
                old(self).region_index,
                RegionOp::AssignFixed { column, offset, to },
            ) {
                Ok(after) => final(self)@ == after && r == Ok::<Cell, Error>(
                    Cell {
                        region_index: old(self).region_index,
                        row_offset: offset,
                        column: column.spec_any(),
                    },
                ),
                Err(e) => r == Err::<Cell, Error>(e) && final(self)@ == old(self)@,
            },
    {
        let row = self.global_offset(offset);
        self.cs.assign_fixed(column, row, to)?;
        Ok(Cell { region_index: self.region_index, row_offset: offset, column: column.any() })
    }

    /// Asks for `constant` to be assigned and `cell` to be constrained to
    /// equal it, once the region is done.
    pub fn constrain_constant(&mut self, cell: Cell, constant: Assigned<F>) -> (r: Result<
        (),
        Error,
    >)
        ensures
            *final(self).cs == *old(self).cs,
            *final(final(self).cs) == *final(old(self).cs),
            final(self).same_region(old(self)),
            r is Ok,
            final(self)@ == old(self)@.request(constant, cell),
    {
        self.constants.push((constant, cell));
        Ok(())
    }

    /// Constrains `left` and `right`, cells of this region or of earlier
    /// ones, to be equal. Fails as the assembly does.
    pub fn constrain_equal(&mut self, left: Cell, right: Cell) -> (r: Result<(), Error>)
        requires
            old(self).cs@.wf(),
            op_in_reach(
                old(self).regions@,
                old(self).region_index,
                RegionOp::<F>::ConstrainEqual { left, right },
            ),
        ensures
            final(self).cs@.wf(),
            *final(final(self).cs) == *final(old(self).cs),
            final(self).same_region(old(self)),
            match old(self)@.step(
                old(self).regions@,
                old(self).region_index,
                RegionOp::ConstrainEqual { left, right },
            ) {
                Ok(after) => r is Ok && final(self)@ == after,
                Err(e) => r == Err::<(), Error>(e) && final(self)@ == old(self)@,
            },
    {
        let left_row = self.global_row(&left);
        let right_row = self.global_row(&right);
        self.cs.copy(left.column, left_row, right.column, right_row)?;
        Ok(())
    }

    /// Takes one step of the region's routine.
    pub fn apply(&mut self, op: &RegionOp<F>) -> (r: Result<(), Error>)
        requires
            old(self).cs@.wf(),
            op_in_reach(old(self).regions@, old(self).region_index, *op),
        ensures
            final(self).cs@.wf(),
            *final(final(self).cs) == *final(old(self).cs),
            final(self).same_region(old(self)),
            match old(self)@.step(old(self).regions@, old(self).region_index, *op) {
                Ok(after) => r is Ok && final(self)@ == after,
                Err(e) => r == Err::<(), Error>(e) && final(self)@ == old(self)@,
            },
    {
        match op {
            RegionOp::EnableSelector { selector, offset } => self.enable_selector(selector, *offset),
            RegionOp::AssignAdvice { column, offset, to } => {
                let _ = self.assign_advice(*column, *offset, *to)?;
                Ok(())
            },
            RegionOp::AssignAdviceFromConstant { column, offset, constant } => {
                let _ = self.assign_advice_from_constant(*column, *offset, *constant)?;
                Ok(())
            },
            RegionOp::AssignAdviceFromInstance { instance, row, advice, offset } => {
                let _ = self.assign_advice_from_instance(*instance, *row, *advice, *offset)?;
                Ok(())
            },
            RegionOp::AssignFixed { column, offset, to } => {
                let _ = self.assign_fixed(*column, *offset, *to)?;
                Ok(())
            },
            RegionOp::ConstrainConstant { cell, constant } => self.constrain_constant(
                *cell,
                *constant,
            ),
            RegionOp::ConstrainEqual { left, right } => self.constrain_equal(*left, *right),
        }
    }

    /// Takes the steps of the region's routine in their order, and stops at
    /// the first that fails: what the steps before it have done stays done.
    pub fn run(&mut self, ops: &[RegionOp<F>]) -> (r: Result<(), Error>)
        requires
            old(self).cs@.wf(),
            ops_in_reach(old(self).regions@, old(self).region_index, ops@),
        ensures
            final(self).cs@.wf(),
            final(self).cs@.same_frame(old(self).cs@),
            *final(final(self).cs) == *final(old(self).cs),
            final(self).same_region(old(self)),
            match old(self)@.run(old(self).regions@, old(self).region_index, ops@) {
                Ok(after) => r is Ok && final(self)@ == after,
                Err(e) => r == Err::<(), Error>(e),
            },
            final(self)@ == old(self)@.after_run(old(self).regions@, old(self).region_index, ops@),
    {
        let mut i: usize = 0;
        assert(ops@.subrange(0, 0) =~= Seq::empty());
        while i < ops.len()
            invariant
                i <= ops@.len(),
                self.cs@.wf(),
                self.cs@.same_frame(old(self).cs@),
                *final(self.cs) == *final(old(self).cs),
                self.same_region(old(self)),
                ops_in_reach(self.regions@, self.region_index, ops@),
                old(self)@.run(self.regions@, self.region_index, ops@.subrange(0, i as int))
                    == Ok::<RegionView<F>, Error>(self@),
            decreases ops@.len() - i,
        {
            assert(op_in_reach(self.regions@, self.region_index, ops@[i as int]));
            let ghost before = self@;
            let step = self.apply(&ops[i]);
            assert(ops@.subrange(0, i + 1).drop_last() =~= ops@.subrange(0, i as int));
            if let Err(e) = step {
                proof {
                    lemma_run_stops(old(self)@, self.regions@, self.region_index, ops@, i + 1);
                }
                return Err(e);
            }
            i = i + 1;
        }
        assert(ops@.subrange(0, i as int) =~= ops@);
        Ok(())
    }
}

/// Once a step has failed, the steps after it are not taken: the error of a
/// run is the error of its first failing prefix.
pub proof fn lemma_run_stops<F>(
    state: RegionView<F>,
    regions: Seq<RegionStart>,
    region_index: RegionIndex,
    ops: Seq<RegionOp<F>>,
    n: int,
)
    requires
        0 <= n <= ops.len(),
        state.run(regions, region_index, ops.subrange(0, n)) is Err,
    ensures
        state.run(regions, region_index, ops) == state.run(regions, region_index, ops.subrange(0, n)),
        state.after_run(regions, region_index, ops) == state.after_run(
            regions,
            region_index,
            ops.subrange(0, n),
        ),
    decreases ops.len() - n,
{
    if n < ops.len() {
        assert(ops.subrange(0, n + 1).drop_last() =~= ops.subrange(0, n));
        lemma_run_stops(state, regions, region_index, ops, n + 1);
    } else {
        assert(ops.subrange(0, n) =~= ops);
    }
}


/// The equality constraint that the step `op` of region `region_index`
/// registers, if it registers one.
pub open spec fn op_copy<F>(
    regions: Seq<RegionStart>,
    region_index: RegionIndex,
    op: RegionOp<F>,
) -> Option<Equality> {
    match op {
        RegionOp::AssignAdviceFromInstance { instance, row, advice, offset } => Some(
            (
                CopyCell {
                    column: advice.spec_any(),
                    row: (regions[region_index.0 as int].0 + offset) as usize,
                },
                CopyCell { column: instance.spec_any(), row },
            ),
        ),
        RegionOp::ConstrainEqual { left, right } => Some(
            (
                CopyCell { column: left.column, row: global_row(regions, left) },
                CopyCell { column: right.column, row: global_row(regions, right) },
            ),
        ),
        _ => None,
    }
}

/// The constant that the step `op` of region `region_index` asks for, if it
/// asks for one.
pub open spec fn op_request<F>(region_index: RegionIndex, op: RegionOp<F>) -> Option<
    ConstantRequest<F>,
> {
    match op {
        RegionOp::AssignAdviceFromConstant { column, offset, constant } => Some(
            (constant, Cell { region_index, row_offset: offset, column: column.spec_any() }),
        ),
        RegionOp::ConstrainConstant { cell, constant } => Some((constant, cell)),
        _ => None,
    }
}

/// The equality constraints that the steps `ops` of region `region_index`
/// register, in their order.
pub open spec fn copies_of<F>(
    regions: Seq<RegionStart>,
    region_index: RegionIndex,
    ops: Seq<RegionOp<F>>,
) -> Seq<Equality>
    decreases ops.len(),
{
    if ops.len() == 0 {
        Seq::empty()
    } else {
        let front = copies_of(regions, region_index, ops.drop_last());
        match op_copy(regions, region_index, ops.last()) {
            Some(copy) => front.push(copy),
            None => front,
        }
    }
}

/// The constants that the steps `ops` of region `region_index` ask for, in
/// their order.
pub open spec fn requests_of<F>(region_index: RegionIndex, ops: Seq<RegionOp<F>>) -> Seq<
    ConstantRequest<F>,
>
    decreases ops.len(),
{
    if ops.len() == 0 {
        Seq::empty()
    } else {
        let front = requests_of(region_index, ops.drop_last());
        match op_request(region_index, ops.last()) {
            Some(request) => front.push(request),
            None => front,
        }
    }
}

/// Whether the context `sub` may do no more than the context `root`: they
/// belong to the same grid, and the window of `sub` lies within that of
/// `root`.
pub open spec fn covers<F>(root: AssemblyView<F>, sub: AssemblyView<F>) -> bool {
    &&& root.wf()
    &&& sub.wf()
    &&& root.k == sub.k
    &&& root.usable_rows == sub.usable_rows
    &&& root.fixed.len() == sub.fixed.len()
    &&& root.selectors.len() == sub.selectors.len()
    &&& root.rw_rows.start <= sub.rw_rows.start
    &&& sub.rw_rows.end <= root.rw_rows.end
}

/// Whether the steps `ops` name cells of the first `bound` regions only.
pub open spec fn names_below<F>(ops: Seq<RegionOp<F>>, bound: int) -> bool {
    forall|i: int|
        0 <= i < ops.len() ==> match #[trigger] ops[i] {
            RegionOp::ConstrainConstant { cell, constant } => cell.region_index.0 < bound,
            RegionOp::ConstrainEqual { left, right } => left.region_index.0 < bound
                && right.region_index.0 < bound,
            _ => true,
        }
}

impl<F> RegionView<F> {
    /// A step that succeeds appends the equality constraint that it
    /// registers and the constant that it asks for, and keeps the frame of
    /// the assembly.
    pub proof fn lemma_step_effects(
        self,
        regions: Seq<RegionStart>,
        region_index: RegionIndex,
        op: RegionOp<F>,
    )
        requires
            self.cs.wf(),
        ensures
            self.step(regions, region_index, op) matches Ok(after) ==> {
                &&& after.cs.wf()
                &&& after.cs.same_frame(self.cs)
                &&& after.cs.equalities() == match op_copy(regions, region_index, op) {
                    Some(copy) => self.cs.equalities().push(copy),
                    None => self.cs.equalities(),
                }
                &&& after.constants == match op_request(region_index, op) {
                    Some(request) => self.constants.push(request),
                    None => self.constants,
                }
            },
    {
    }

    /// Steps that succeed append the equality constraints that they register
    /// and the constants that they ask for, and keep the frame of the
    /// assembly.
    pub proof fn lemma_run_effects(
        self,
        regions: Seq<RegionStart>,
        region_index: RegionIndex,
        ops: Seq<RegionOp<F>>,
    )
        requires
            self.cs.wf(),
        ensures
            self.run(regions, region_index, ops) matches Ok(after) ==> {
                &&& after.cs.wf()
                &&& after.cs.same_frame(self.cs)
                &&& after.cs.equalities() == self.cs.equalities() + copies_of(
                    regions,
                    region_index,
                    ops,
                )
                &&& after.constants == self.constants + requests_of(region_index, ops)
            },
        decreases ops.len(),
    {
        if ops.len() > 0 {
            self.lemma_run_effects(regions, region_index, ops.drop_last());
            if let Ok(before) = self.run(regions, region_index, ops.drop_last()) {
                before.lemma_step_effects(regions, region_index, ops.last());
                if let Ok(after) = before.step(regions, region_index, ops.last()) {
                    assert(after.cs.equalities() =~= self.cs.equalities() + copies_of(
                        regions,
                        region_index,
                        ops,
                    ));
                    assert(after.constants =~= self.constants + requests_of(region_index, ops));
                }
            }
        } else {
            assert(self.cs.equalities() + copies_of(regions, region_index, ops)
                =~= self.cs.equalities());
            assert(self.constants + requests_of(region_index, ops) =~= self.constants);
        }
    }

    /// A step that succeeds in a context succeeds in every context that may
    /// do at least as much.
    pub proof fn lemma_step_transfers(
        self,
        root: Self,
        regions: Seq<RegionStart>,
        region_index: RegionIndex,
        op: RegionOp<F>,
    )
        requires
            covers(root.cs, self.cs),
            self.step(regions, region_index, op) is Ok,
        ensures
            root.step(regions, region_index, op) matches Ok(after) && covers(
                after.cs,
                self.step(regions, region_index, op)->Ok_0.cs,
            ),
    {
        self.lemma_step_effects(regions, region_index, op);
        root.lemma_step_effects(regions, region_index, op);
    }

    /// Steps that succeed in a context succeed in every context that may do
    /// at least as much.
    pub proof fn lemma_run_transfers(
        self,
        root: Self,
        regions: Seq<RegionStart>,
        region_index: RegionIndex,
        ops: Seq<RegionOp<F>>,
    )
        requires
            covers(root.cs, self.cs),
            self.run(regions, region_index, ops) is Ok,
        ensures
            root.run(regions, region_index, ops) matches Ok(after) && covers(
                after.cs,
                self.run(regions, region_index, ops)->Ok_0.cs,
            ),
        decreases ops.len(),
    {
        if ops.len() > 0 {
            self.lemma_run_transfers(root, regions, region_index, ops.drop_last());
            let sub = self.run(regions, region_index, ops.drop_last())->Ok_0;
            let top = root.run(regions, region_index, ops.drop_last())->Ok_0;
            sub.lemma_step_transfers(top, regions, region_index, ops.last());
        }
    }

    /// A step looks at the start rows of its own region and of the regions
    /// whose cells it names, and at no other.
    pub proof fn lemma_step_local(
        self,
        regions: Seq<RegionStart>,
        bound: int,
        region_index: RegionIndex,
        op: RegionOp<F>,
    )
        requires
            0 <= region_index.0 < bound <= regions.len(),
            names_below(seq![op], bound),
        ensures
            self.step(regions.subrange(0, bound), region_index, op) == self.step(
                regions,
                region_index,
                op,
            ),
            op_copy(regions.subrange(0, bound), region_index, op) == op_copy(
                regions,
                region_index,
                op,
            ),
    {
        assert(seq![op][0] == op);
    }

    /// Steps look at the start rows of their own region and of the regions
    /// whose cells they name, and at no other.
    pub proof fn lemma_run_local(
        self,
        regions: Seq<RegionStart>,
        bound: int,
        region_index: RegionIndex,
        ops: Seq<RegionOp<F>>,
    )
        requires
            0 <= region_index.0 < bound <= regions.len(),
            names_below(ops, bound),
        ensures
            self.run(regions.subrange(0, bound), region_index, ops) == self.run(
                regions,
                region_index,
                ops,
            ),
            copies_of(regions.subrange(0, bound), region_index, ops) == copies_of(
                regions,
                region_index,
                ops,
            ),
        decreases ops.len(),
    {
        if ops.len() > 0 {
            let front = ops.drop_last();
            assert forall|i: int| 0 <= i < front.len() implies match #[trigger] front[i] {
                RegionOp::ConstrainConstant { cell, constant } => cell.region_index.0 < bound,
                RegionOp::ConstrainEqual { left, right } => left.region_index.0 < bound
                    && right.region_index.0 < bound,
                _ => true,
            } by {
                assert(front[i] == ops[i]);
            }
            self.lemma_run_local(regions, bound, region_index, front);
            assert(names_below(seq![ops.last()], bound)) by {
                assert(ops[ops.len() - 1] == ops.last());
            }
            if let Ok(before) = self.run(regions, region_index, front) {
                before.lemma_step_local(regions, bound, region_index, ops.last());
            }
            self.lemma_step_local(regions, bound, region_index, ops.last());
        }
    }
}

} // verus!
