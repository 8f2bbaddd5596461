//! The single-pass layouter: regions are laid out in the order in which the
//! circuit creates them, and are never moved.

use vstd::prelude::*;
use std::ops::Range;
use crate::assembly::{assembly_views, Assembly, AssemblyView};
use crate::batch::{
    all_requests, batch_indices, batch_shapes, collect_requests, first_error, first_failure,
    lemma_batch_outcomes, materialize, materialize_all, materialized, scripts_view, sub_assemblies,
};
use crate::cell::{Cell, RegionIndex, RegionStart};
use crate::circuit::{step_views, Circuit, Step, StepView};
use crate::column::{Challenge, Column, Fixed, Instance, RegionColumn, TableColumn};
use crate::constants::{
    after_consolidate, assign_constants_to_column, consolidate, constant_copies, constants_key,
    lemma_assign_constants_effects, requests_in_reach,
};
use crate::error::Error;
use crate::occupancy::{
    first_free, lemma_place, lemma_place_all_grows, lemma_start_row, place, place_all, start_row,
    start_rows, ColumnOccupancy,
};
use crate::region::{
    cell_in_reach, copies_of, global_row, op_in_reach, ops_in_reach, requests_of, ConstantRequest,
    RegionView,
};
use crate::shape::{RegionOp, RegionShape, ShapeView};
use crate::table::{
    after_fill_defaults, common_length, entry_columns, entry_views, fill_defaults,
    lemma_after_fill_defaults_spares, lemma_assign_cells_stops, lemma_fill_defaults_by_frame,
    lemma_fill_defaults_stops, lemma_position, position, SimpleTableLayouter, TableCell, TableView,
};
use crate::value::Value;

verus! {

/// Placing a region adds its start row to the end of the list of regions,
/// and keeps the regions before it.
pub proof fn lemma_placed_all_regions<F>(layouter: LayouterView<F>, scripts: Seq<Seq<RegionOp<F>>>)
    ensures
        layouter.placed_all(scripts).regions.len() == layouter.regions.len() + scripts.len(),
        layouter.placed_all(scripts).cs == layouter.cs,
        layouter.placed_all(scripts).constants == layouter.constants,
        layouter.placed_all(scripts).table_columns == layouter.table_columns,
        forall|j: int|
            0 <= j < layouter.regions.len() ==> layouter.placed_all(scripts).regions[j]
                == layouter.regions[j],
    decreases scripts.len(),
{
    reveal(LayouterView::placed_all);
    if scripts.len() > 0 {
        lemma_placed_all_regions(layouter, scripts.drop_last());
    }
}

/// Whether the cells that the step `op` names lie in regions that have been
/// placed, at rows that the machine can number.
pub open spec fn op_names_in_reach<F>(regions: Seq<RegionStart>, op: RegionOp<F>) -> bool {
    match op {
        RegionOp::ConstrainConstant { cell, constant } => cell_in_reach(regions, cell),
        RegionOp::ConstrainEqual { left, right } => cell_in_reach(regions, left) && cell_in_reach(
            regions,
            right,
        ),
        _ => true,
    }
}

/// What a [`SingleChipLayouter`] holds, as mathematical values.
pub struct LayouterView<F> {
    /// The assembly that the regions are assigned to.
    pub cs: AssemblyView<F>,
    /// The columns that may hold constants; the first of them is used.
    pub constants: Seq<Column<Fixed>>,
    /// The start row of each region, in the order of creation.
    pub regions: Seq<RegionStart>,
    /// The first free row of each column.
    pub columns: Map<RegionColumn, nat>,
    /// The columns of the tables that are complete.
    pub table_columns: Seq<TableColumn>,
}

impl<F> LayouterView<F> {
    /// The assembly is well formed.
    pub open spec fn wf(self) -> bool {
        self.cs.wf()
    }

    /// A layouter that has laid out nothing yet.
    pub open spec fn begin(cs: AssemblyView<F>, constants: Seq<Column<Fixed>>) -> Self {
        LayouterView {
            cs,
            constants,
            regions: Seq::empty(),
            columns: Map::empty(),
            table_columns: Seq::empty(),
        }
    }

    /// The index that the next region gets.
    pub open spec fn next_index(self) -> RegionIndex {
        RegionIndex(self.regions.len() as usize)
    }

    /// This layouter after a region with the steps `ops` is measured and
    /// placed: the region starts at the first row at which all of its
    /// columns are free, and claims its rows in each of them.
    pub open spec fn placed(self, ops: Seq<RegionOp<F>>) -> Self {
        let shape = ShapeView::of(self.next_index(), ops);
        LayouterView {
            regions: self.regions.push(
                RegionStart(start_row(self.columns, shape.columns) as usize),
            ),
            columns: place(self.columns, shape),
            ..self
        }
    }

    /// Whether the cells that the steps `ops` name lie in regions that have
    /// been placed, at rows that the machine can number.
    pub open spec fn names_cells_in_reach(self, ops: Seq<RegionOp<F>>) -> bool {
        forall|i: int| 0 <= i < ops.len() ==> op_names_in_reach(self.regions, #[trigger] ops[i])
    }

    /// Whether a region with the steps `ops` can be laid out: the machine
    /// can number its rows, and the cells that its steps name lie in this
    /// region or in earlier ones.
    pub open spec fn admits(self, ops: Seq<RegionOp<F>>) -> bool {
        let shape = ShapeView::of(self.next_index(), ops);
        &&& self.regions.len() < usize::MAX
        &&& RegionShape::countable(ops)
        &&& start_row(self.columns, shape.columns) + shape.row_count <= usize::MAX
        &&& self.placed(ops).names_cells_in_reach(ops)
    }

    /// Laying out a region with the steps `ops`: the region is measured and
    /// placed, its steps are taken at its start row, and the constants that
    /// it asked for are assigned.
    pub open spec fn assign_region(self, ops: Seq<RegionOp<F>>) -> Result<Self, Error> {
        let placed = self.placed(ops);
        match RegionView::begin(self.cs).run(placed.regions, self.next_index(), ops) {
            Err(e) => Err(e),
            Ok(region) => match consolidate(
                region.cs,
                placed.columns,
                placed.regions,
                self.constants,
                region.constants,
            ) {
                Err(e) => Err(e),
                Ok((cs, columns)) => Ok(LayouterView { cs, columns, ..placed }),
            },
        }
    }

    /// What the layouter holds once a region with the steps `ops` was to be
    /// laid out, whether that succeeded or not.
    ///
    /// The region is placed in either case. Where a step fails, the assembly
    /// holds what the steps before it have done, no constant is assigned,
    /// and no row is claimed for constants. Where a constant fails, the
    /// assembly holds the constants before it, and no row is claimed for
    /// constants.
    pub open spec fn after_region(self, ops: Seq<RegionOp<F>>) -> Self {
        let placed = self.placed(ops);
        let begun = RegionView::begin(self.cs);
        match begun.run(placed.regions, self.next_index(), ops) {
            Err(e) => LayouterView {
                cs: begun.after_run(placed.regions, self.next_index(), ops).cs,
                ..placed
            },
            Ok(region) => {
                let (cs, columns) = after_consolidate(
                    region.cs,
                    placed.columns,
                    placed.regions,
                    self.constants,
                    region.constants,
                );
                LayouterView { cs, columns, ..placed }
            },
        }
    }

    /// Constraining `cell` to equal the instance cell at `row` of `instance`.
    pub open spec fn constrain_instance(
        self,
        cell: Cell,
        instance: Column<Instance>,
        row: usize,
    ) -> Result<Self, Error> {
        match self.cs.copy(cell.column, global_row(self.regions, cell), instance.spec_any(), row) {
            Err(e) => Err(e),
            Ok(cs) => Ok(LayouterView { cs, ..self }),
        }
    }

    /// Laying out a lookup table with the cells `cells`.
    ///
    /// The cells are assigned from row 0 on. The table is complete when it
    /// has a column and all of its columns are assigned in the same rows,
    /// without a gap. Its columns then count as used, and each is filled
    /// with its value of row 0 from the first row after the table on.
    pub open spec fn assign_table(self, cells: Seq<TableCell<F>>) -> Result<Self, Error> {
        match TableView::begin(self.cs).assign_cells(self.table_columns, cells) {
            Err(e) => Err(e),
            Ok(table) => match table.common_length() {
                None => Err(Error::Synthesis),
                Some(first_unused) => match fill_defaults(
                    table.cs,
                    table.entries,
                    first_unused as usize,
                ) {
                    Err(e) => Err(e),
                    Ok(cs) => Ok(
                        LayouterView {
                            cs,
                            table_columns: self.table_columns + entry_columns(table.entries),
                            ..self
                        },
                    ),
                },
            },
        }
    }

    /// What the layouter holds once a lookup table with the cells `cells`
    /// was to be laid out, whether that succeeded or not.
    ///
    /// Where a cell fails, or the columns of the table share no length, no
    /// column is sealed and none is filled: the assembly holds the cells
    /// that were assigned before the failure, and nothing else has changed.
    /// Where the filling of a column fails, the columns of the table are
    /// sealed, and the columns before the failing one are filled.
    pub open spec fn after_table(self, cells: Seq<TableCell<F>>) -> Self {
        let begun = TableView::begin(self.cs);
        match begun.assign_cells(self.table_columns, cells) {
            Err(e) => LayouterView { cs: begun.after_cells(self.table_columns, cells).cs, ..self },
            Ok(table) => match table.common_length() {
                None => LayouterView { cs: table.cs, ..self },
                Some(first_unused) => LayouterView {
                    cs: after_fill_defaults(table.cs, table.entries, first_unused as usize),
                    table_columns: self.table_columns + entry_columns(table.entries),
                    ..self
                },
            },
        }
    }

    /// Whether a region with the steps `ops` can be placed: the machine can
    /// number the region and its rows.
    pub open spec fn can_place(self, ops: Seq<RegionOp<F>>) -> bool {
        let shape = ShapeView::of(self.next_index(), ops);
        &&& self.regions.len() < usize::MAX
        &&& RegionShape::countable(ops)
        &&& start_row(self.columns, shape.columns) + shape.row_count <= usize::MAX
    }

    /// The rows that a region with the steps `ops` takes when it is placed
    /// next.
    pub open spec fn row_range(self, ops: Seq<RegionOp<F>>) -> Range<usize> {
        let shape = ShapeView::of(self.next_index(), ops);
        let start = start_row(self.columns, shape.columns);
        Range { start: start as usize, end: (start + shape.row_count) as usize }
    }

    /// This layouter after the regions of `scripts` are measured and placed,
    /// one after the other.
    #[verifier::opaque]
    pub open spec fn placed_all(self, scripts: Seq<Seq<RegionOp<F>>>) -> Self
        decreases scripts.len(),
    {
        if scripts.len() == 0 {
            self
        } else {
            self.placed_all(scripts.drop_last()).placed(scripts.last())
        }
    }

    /// The rows that each region of `scripts` takes when they are placed one
    /// after the other.
    pub open spec fn row_ranges(self, scripts: Seq<Seq<RegionOp<F>>>) -> Seq<Range<usize>> {
        Seq::new(
            scripts.len(),
            |i: int| self.placed_all(scripts.subrange(0, i)).row_range(scripts[i]),
        )
    }

    /// What becomes of region `i` of the batch `scripts`: its steps are
    /// taken in a context of its own, forked from the assembly for the rows
    /// of the region.
    pub open spec fn sub_outcome(self, scripts: Seq<Seq<RegionOp<F>>>, i: int) -> Result<
        RegionView<F>,
        Error,
    > {
        RegionView::begin(self.cs.window(self.row_ranges(scripts)[i])).run(
            self.placed_all(scripts).regions,
            RegionIndex((self.regions.len() + i) as usize),
            scripts[i],
        )
    }

    /// Whether the batch of regions `scripts` can be laid out: each region
    /// can be placed, and the cells that the steps name lie in regions of
    /// the batch or in earlier ones.
    pub open spec fn admits_all(self, scripts: Seq<Seq<RegionOp<F>>>) -> bool {
        &&& forall|i: int|
            0 <= i < scripts.len() ==> self.placed_all(scripts.subrange(0, i)).can_place(
                #[trigger] scripts[i],
            )
        &&& forall|i: int|
            0 <= i < scripts.len() ==> self.placed_all(scripts).names_cells_in_reach(
                #[trigger] scripts[i],
            )
    }

    /// Whether the batch of regions `scripts` fails before its contexts are
    /// merged back: the rows of the regions cannot be forked, or a region
    /// fails. The assembly is then left as it was.
    pub open spec fn fails_before_merge(self, scripts: Seq<Seq<RegionOp<F>>>) -> bool {
        self.cs.fork(self.row_ranges(scripts)) is Err || first_error(
            Seq::new(scripts.len(), |i: int| self.sub_outcome(scripts, i)),
        ) is Some
    }

    /// Laying out the batch of regions `scripts`.
    ///
    /// The regions are measured and placed one after the other. The assembly
    /// is forked into one context for the rows of each region, and each
    /// region takes its steps in its own context. The contexts are merged
    /// back in the order of the regions, and the constants that the regions
    /// asked for are assigned, in the order of the regions and, within a
    /// region, in the order in which it asked.
    pub open spec fn assign_regions(self, scripts: Seq<Seq<RegionOp<F>>>) -> Result<Self, Error> {
        let placed = self.placed_all(scripts);
        match self.cs.fork(self.row_ranges(scripts)) {
            Err(e) => Err(e),
            Ok(windows) => {
                let outcomes = Seq::new(scripts.len(), |i: int| self.sub_outcome(scripts, i));
                match first_error(outcomes) {
                    Some(e) => Err(e),
                    None => match consolidate(
                        self.cs.absorb_all(sub_assemblies(outcomes)),
                        placed.columns,
                        placed.regions,
                        self.constants,
                        all_requests(outcomes),
                    ) {
                        Err(e) => Err(e),
                        Ok((cs, columns)) => Ok(LayouterView { cs, columns, ..placed }),
                    },
                }
            },
        }
    }

    /// What the layouter holds once the batch of regions `scripts` was to be
    /// laid out, whether that succeeded or not.
    ///
    /// The regions are placed in either case. Where the rows of the regions
    /// cannot be forked, or a region fails, the assembly is as it was.
    /// Where a constant fails, the contexts are merged back, the assembly
    /// holds the constants before the failing one, and no row is claimed for
    /// constants.
    pub open spec fn after_regions(self, scripts: Seq<Seq<RegionOp<F>>>) -> Self {
        let placed = self.placed_all(scripts);
        if self.fails_before_merge(scripts) {
            LayouterView { cs: self.cs, ..placed }
        } else {
            let outcomes = Seq::new(scripts.len(), |i: int| self.sub_outcome(scripts, i));
            let (cs, columns) = after_consolidate(
                self.cs.absorb_all(sub_assemblies(outcomes)),
                placed.columns,
                placed.regions,
                self.constants,
                all_requests(outcomes),
            );
            LayouterView { cs, columns, ..placed }
        }
    }

    /// Placing no region changes nothing.
    pub proof fn lemma_placed_none(self)
        ensures
            self.placed_all(Seq::empty()) == self,
    {
        reveal(LayouterView::placed_all);
    }

    /// Placing the first `i + 1` regions of a batch is placing the first
    /// `i`, and then region `i`.
    pub proof fn lemma_placed_next(self, scripts: Seq<Seq<RegionOp<F>>>, i: int)
        requires
            0 <= i < scripts.len(),
        ensures
            self.placed_all(scripts.subrange(0, i + 1)) == self.placed_all(
                scripts.subrange(0, i),
            ).placed(scripts[i]),
    {
        reveal(LayouterView::placed_all);
        assert(scripts.subrange(0, i + 1).drop_last() =~= scripts.subrange(0, i));
    }

    /// The start rows that a batch adds to the list of regions: region `i`
    /// of the batch starts at the first row of its range.
    pub proof fn lemma_batch_starts(self, scripts: Seq<Seq<RegionOp<F>>>, i: int)
        requires
            0 <= i < scripts.len(),
        ensures
            self.placed_all(scripts).regions.len() == self.regions.len() + scripts.len(),
            self.placed_all(scripts).regions[self.regions.len() + i].0 == self.row_ranges(
                scripts,
            )[i].start,
        decreases scripts.len(),
    {
        reveal(LayouterView::placed_all);
        lemma_placed_all_regions(self, scripts);
        let front = scripts.drop_last();
        lemma_placed_all_regions(self, front);
        if i < scripts.len() - 1 {
            assert(front.subrange(0, i) =~= scripts.subrange(0, i));
            self.lemma_batch_starts(front, i);
        } else {
            assert(scripts.subrange(0, i) =~= front);
        }
    }

    /// Each region of a batch that can be laid out can be run: the absolute
    /// rows that its steps speak of can be computed once the batch is
    /// placed.
    pub proof fn lemma_batch_ops_in_reach(self, scripts: Seq<Seq<RegionOp<F>>>, i: int)
        requires
            0 <= i < scripts.len(),
            self.admits_all(scripts),
        ensures
            ops_in_reach(
                self.placed_all(scripts).regions,
                RegionIndex((self.regions.len() + i) as usize),
                scripts[i],
            ),
    {
        self.lemma_batch_starts(scripts, i);
        lemma_placed_all_regions(self, scripts.subrange(0, i));
        let index = RegionIndex((self.regions.len() + i) as usize);
        let regions = self.placed_all(scripts).regions;
        let ops = scripts[i];
        let at = self.placed_all(scripts.subrange(0, i));
        assert(at.can_place(ops));
        assert(at.next_index() == index);
        assert(self.placed_all(scripts).names_cells_in_reach(ops));
        ShapeView::empty(index).lemma_covers(ops);
        assert forall|k: int| 0 <= k < ops.len() implies op_in_reach(
            regions,
            index,
            #[trigger] ops[k],
        ) by {
            let _ = ops[k].touches();
        }
    }

    /// Whether the step `step` can be taken: the machine can number the rows
    /// that it speaks of, and the cells that it names lie in regions that
    /// have been placed by then.
    pub open spec fn admits_step(self, step: StepView<F>) -> bool {
        match step {
            StepView::AssignRegion { ops } => self.admits(ops),
            StepView::AssignRegions { scripts } => self.admits_all(scripts),
            StepView::AssignTable { cells } => true,
            StepView::ConstrainInstance { cell, instance, row } => cell_in_reach(self.regions, cell),
        }
    }

    /// Taking the step `step` of a synthesis.
    pub open spec fn step(self, step: StepView<F>) -> Result<Self, Error> {
        match step {
            StepView::AssignRegion { ops } => self.assign_region(ops),
            StepView::AssignRegions { scripts } => self.assign_regions(scripts),
            StepView::AssignTable { cells } => self.assign_table(cells),
            StepView::ConstrainInstance { cell, instance, row } => self.constrain_instance(
                cell,
                instance,
                row,
            ),
        }
    }

    /// What the layouter holds once the step `step` was to be taken, whether
    /// that succeeded or not.
    pub open spec fn after_step(self, step: StepView<F>) -> Self {
        match step {
            StepView::AssignRegion { ops } => self.after_region(ops),
            StepView::AssignRegions { scripts } => self.after_regions(scripts),
            StepView::AssignTable { cells } => self.after_table(cells),
            StepView::ConstrainInstance { cell, instance, row } => match self.constrain_instance(
                cell,
                instance,
                row,
            ) {
                Ok(after) => after,
                Err(e) => self,
            },
        }
    }

    /// What the layouter holds once the steps `steps` were to be taken: what
    /// the steps before the first failing one have left, and what the
    /// failing one has.
    pub open spec fn after_synthesis(self, steps: Seq<StepView<F>>) -> Self
        decreases steps.len(),
    {
        if steps.len() == 0 {
            self
        } else {
            match self.synthesize(steps.drop_last()) {
                Err(e) => self.after_synthesis(steps.drop_last()),
                Ok(before) => before.after_step(steps.last()),
            }
        }
    }

    /// What the layouter holds once the steps `steps` were to be taken, each
    /// after a test whether it can be: as [`Self::after_synthesis`], but a
    /// step that cannot be taken is not, and ends the synthesis.
    pub open spec fn after_checked_synthesis(self, steps: Seq<StepView<F>>) -> Self
        decreases steps.len(),
    {
        if steps.len() == 0 {
            self
        } else if !self.admits_steps(steps.drop_last()) {
            self.after_checked_synthesis(steps.drop_last())
        } else {
            match self.synthesize(steps.drop_last()) {
                Err(e) => self.after_checked_synthesis(steps.drop_last()),
                Ok(before) => if before.admits_step(steps.last()) {
                    before.after_step(steps.last())
                } else {
                    before
                },
            }
        }
    }

    /// Taking the steps `steps` of a synthesis in their order, up to the
    /// first that fails.
    pub open spec fn synthesize(self, steps: Seq<StepView<F>>) -> Result<Self, Error>
        decreases steps.len(),
    {
        if steps.len() == 0 {
            Ok(self)
        } else {
            match self.synthesize(steps.drop_last()) {
                Err(e) => Err(e),
                Ok(before) => before.step(steps.last()),
            }
        }
    }

    /// Whether each of the steps `steps` can be taken once the steps before
    /// it have been.
    pub open spec fn admits_steps(self, steps: Seq<StepView<F>>) -> bool
        decreases steps.len(),
    {
        steps.len() == 0 || (self.admits_steps(steps.drop_last()) && (self.synthesize(
            steps.drop_last(),
        ) matches Ok(before) ==> before.admits_step(steps.last())))
    }

    /// Where all steps can be taken, the first of them can.
    pub proof fn lemma_admits_prefix(self, steps: Seq<StepView<F>>, n: int)
        requires
            self.admits_steps(steps),
            0 <= n <= steps.len(),
        ensures
            self.admits_steps(steps.subrange(0, n)),
        decreases steps.len(),
    {
        if n < steps.len() {
            self.lemma_admits_prefix(steps.drop_last(), n);
            assert(steps.drop_last().subrange(0, n) =~= steps.subrange(0, n));
        } else {
            assert(steps.subrange(0, n) =~= steps);
        }
    }

    /// Once a step has failed, the steps after it are not taken, and so
    /// nothing is asked of them.
    pub proof fn lemma_admits_after_failure(self, steps: Seq<StepView<F>>, n: int)
        requires
            0 <= n <= steps.len(),
            self.admits_steps(steps.subrange(0, n)),
            self.synthesize(steps.subrange(0, n)) is Err,
        ensures
            self.admits_steps(steps),
        decreases steps.len() - n,
    {
        if n < steps.len() {
            assert(steps.subrange(0, n + 1).drop_last() =~= steps.subrange(0, n));
            self.lemma_synthesize_stops(steps.subrange(0, n + 1), n);
            assert(steps.subrange(0, n + 1).subrange(0, n) =~= steps.subrange(0, n));
            self.lemma_admits_after_failure(steps, n + 1);
        } else {
            assert(steps.subrange(0, n) =~= steps);
        }
    }

    /// Once a step cannot be taken or has failed, the synthesis has ended.
    pub proof fn lemma_checked_synthesis_stops(self, steps: Seq<StepView<F>>, n: int)
        requires
            0 <= n <= steps.len(),
            !self.admits_steps(steps.subrange(0, n)) || self.synthesize(steps.subrange(0, n)) is Err,
        ensures
            self.after_checked_synthesis(steps) == self.after_checked_synthesis(
                steps.subrange(0, n),
            ),
        decreases steps.len() - n,
    {
        if n < steps.len() {
            assert(steps.subrange(0, n + 1).drop_last() =~= steps.subrange(0, n));
            if self.synthesize(steps.subrange(0, n)) is Err {
                self.lemma_synthesize_stops(steps.subrange(0, n + 1), n);
                assert(steps.subrange(0, n + 1).subrange(0, n) =~= steps.subrange(0, n));
            }
            self.lemma_checked_synthesis_stops(steps, n + 1);
        } else {
            assert(steps.subrange(0, n) =~= steps);
        }
    }

    /// Once a step has failed, the steps after it are not taken.
    pub proof fn lemma_synthesize_stops(self, steps: Seq<StepView<F>>, n: int)
        requires
            0 <= n <= steps.len(),
            self.synthesize(steps.subrange(0, n)) is Err,
        ensures
            self.synthesize(steps) == self.synthesize(steps.subrange(0, n)),
            self.after_synthesis(steps) == self.after_synthesis(steps.subrange(0, n)),
        decreases steps.len() - n,
    {
        if n < steps.len() {
            assert(steps.subrange(0, n + 1).drop_last() =~= steps.subrange(0, n));
            self.lemma_synthesize_stops(steps, n + 1);
        } else {
            assert(steps.subrange(0, n) =~= steps);
        }
    }

    /// A region that can be laid out can be run: the absolute rows that its
    /// steps speak of can be computed once it is placed.
    pub proof fn lemma_admitted_ops_in_reach(self, ops: Seq<RegionOp<F>>)
        requires
            self.admits(ops),
        ensures
            ops_in_reach(self.placed(ops).regions, self.next_index(), ops),
    {
        let index = self.next_index();
        let shape = ShapeView::of(index, ops);
        let regions = self.placed(ops).regions;
        ShapeView::empty(index).lemma_covers(ops);
        assert forall|i: int| 0 <= i < ops.len() implies op_in_reach(
            regions,
            index,
            #[trigger] ops[i],
        ) by {
            let _ = ops[i].touches();
        }
    }
}

/// The cells that ask for constants while steps are taken lie within reach
/// where the steps do.
pub proof fn lemma_run_requests_in_reach<F>(
    state: RegionView<F>,
    regions: Seq<RegionStart>,
    region_index: RegionIndex,
    ops: Seq<RegionOp<F>>,
)
    requires
        ops_in_reach(regions, region_index, ops),
        requests_in_reach(regions, state.constants),
    ensures
        state.run(regions, region_index, ops) matches Ok(after) ==> requests_in_reach(
            regions,
            after.constants,
        ) && after.cs.same_frame(state.cs),
    decreases ops.len(),
{
    if ops.len() > 0 {
        let front = ops.drop_last();
        assert forall|i: int| 0 <= i < front.len() implies op_in_reach(
            regions,
            region_index,
            #[trigger] front[i],
        ) by {
            assert(front[i] == ops[i]);
        }
        lemma_run_requests_in_reach(state, regions, region_index, front);
        assert(op_in_reach(regions, region_index, ops[ops.len() - 1]));
    }
}

/// Whether the rows that `ops` use can be counted.
pub(crate) fn countable<F: Copy>(ops: &[RegionOp<F>]) -> (b: bool)
    ensures
        b == RegionShape::countable(ops@),
{
    let mut i: usize = 0;
    while i < ops.len()
        invariant
            i <= ops@.len(),
            forall|j: int|
                0 <= j < i ==> (#[trigger] ops@[j].touches() matches Some((column, offset))
                    ==> offset < usize::MAX),
        decreases ops@.len() - i,
    {
        let offset = match &ops[i] {
            RegionOp::EnableSelector { selector, offset } => Some(*offset),
            RegionOp::AssignAdvice { column, offset, to } => Some(*offset),
            RegionOp::AssignAdviceFromConstant { column, offset, constant } => Some(*offset),
            RegionOp::AssignAdviceFromInstance { instance, row, advice, offset } => Some(*offset),
            RegionOp::AssignFixed { column, offset, to } => Some(*offset),
            RegionOp::ConstrainConstant { cell, constant } => None,
            RegionOp::ConstrainEqual { left, right } => None,
        };
        assert(offset == ops@[i as int].offset());
        if let Some(offset) = offset {
            if offset == usize::MAX {
                assert(!(ops@[i as int].touches() matches Some((column, offset)) ==> offset
                    < usize::MAX));
                return false;
            }
        }
        i = i + 1;
    }
    true
}

/// Whether the absolute row of `cell` can be computed, where the regions
/// `placed` follow the regions `regions`.
pub(crate) fn cell_within_reach(
    regions: &Vec<RegionStart>,
    placed: &Vec<RegionStart>,
    cell: &Cell,
) -> (b:
    bool)
    ensures
        b == cell_in_reach(regions@ + placed@, *cell),
{
    let index = cell.region_index.0;
    if index < regions.len() {
        assert((regions@ + placed@)[index as int] == regions@[index as int]);
        regions[index].0 <= usize::MAX - cell.row_offset
    } else if index - regions.len() < placed.len() {
        assert((regions@ + placed@)[index as int] == placed@[index - regions@.len()]);
        placed[index - regions.len()].0 <= usize::MAX - cell.row_offset
    } else {
        false
    }
}

/// Whether the cells that `ops` name lie within reach, where the regions
/// `placed` follow the regions `regions`.
pub(crate) fn names_within_reach<F: Copy>(
    regions: &Vec<RegionStart>,
    placed: &Vec<RegionStart>,
    ops: &[RegionOp<F>],
) -> (b: bool)
    ensures
        b == forall|i: int|
            0 <= i < ops@.len() ==> op_names_in_reach(regions@ + placed@, #[trigger] ops@[i]),
{
    let mut i: usize = 0;
    while i < ops.len()
        invariant
            i <= ops@.len(),
            forall|j: int|
                0 <= j < i ==> op_names_in_reach(regions@ + placed@, #[trigger] ops@[j]),
        decreases ops@.len() - i,
    {
        let within = match &ops[i] {
            RegionOp::ConstrainConstant { cell, constant } => cell_within_reach(
                regions,
                placed,
                cell,
            ),
            RegionOp::ConstrainEqual { left, right } => cell_within_reach(regions, placed, left)
                && cell_within_reach(regions, placed, right),
            _ => true,
        };
        if !within {
            assert(!op_names_in_reach(regions@ + placed@, ops@[i as int]));
            return false;
        }
        i = i + 1;
    }
    true
}

/// A simple floor planner that performs minimal optimizations.
///
/// This floor planner is suitable for debugging circuits. It aims to reflect the circuit
/// "business logic" in the circuit layout as closely as possible. It uses a single-pass
/// layouter that does not reorder regions for optimal packing.
#[derive(Debug)]
pub struct SimpleFloorPlanner;

impl SimpleFloorPlanner {
    /// Lays out `circuit` on the assembly `cs` and assigns it there: the
    /// steps of the circuit are taken in their order, each region at the
    /// first row at which all of its columns are free. The constants go to
    /// the first of the columns `constants`.
    ///
    /// Fails with the error of the first step that fails; the assembly then
    /// holds what the steps up to the failure have written, which is no
    /// valid layout.
    pub fn synthesize<F: Copy + Send + Sync>(
        cs: &mut Assembly<F>,
        circuit: &Circuit<F>,
        constants: Vec<Column<Fixed>>,
    ) -> (r: Result<(), Error>)
        requires
            old(cs)@.wf(),
            LayouterView::begin(old(cs)@, constants@).admits_steps(step_views(circuit.steps@)),
        ensures
            final(cs)@.wf(),
            final(cs)@.same_frame(old(cs)@),
            synthesis_gave(old(cs)@, constants@, step_views(circuit.steps@), final(cs)@, r),
    {
        let mut layouter = SingleChipLayouter::new(cs, constants)?;
        layouter.synthesize(&circuit.steps)
    }
}

/// A layouter for a single-chip circuit.
#[derive(Debug)]
pub struct SingleChipLayouter<'a, F> {
    pub cs: &'a mut Assembly<F>,
    pub constants: Vec<Column<Fixed>>,
    /// Stores the starting row for each region.
    pub regions: Vec<RegionStart>,
    /// Stores the first empty row for each column.
    pub columns: ColumnOccupancy,
    /// Stores the table fixed columns.
    pub table_columns: Vec<TableColumn>,
}

impl<'a, F> View for SingleChipLayouter<'a, F> {
    type V = LayouterView<F>;

    open spec fn view(&self) -> LayouterView<F> {
        LayouterView {
            cs: (*self.cs)@,
            constants: self.constants@,
            regions: self.regions@,
            columns: self.columns@,
            table_columns: self.table_columns@,
        }
    }
}

impl<'a, F: Copy> SingleChipLayouter<'a, F> {
    /// Creates a new single-chip layouter.
    pub fn new(cs: &'a mut Assembly<F>, constants: Vec<Column<Fixed>>) -> (r: Result<Self, Error>)
        ensures
            r matches Ok(layouter) && layouter@ == LayouterView::begin(old(cs)@, constants@)
                && *final(cs) == *final(layouter.cs),
    {
        let ret = SingleChipLayouter {
            cs,
            constants,
            regions: Vec::new(),
            columns: ColumnOccupancy::new(),
            table_columns: Vec::new(),
        };
        Ok(ret)
    }

    /// Whether a region with the steps `ops` can be laid out next: the
    /// machine can number its rows, and the cells that its steps name lie in
    /// this region or in earlier ones. [`Self::assign_region`] asks for this.
    pub fn admits(&self, ops: &[RegionOp<F>]) -> (b: bool)
        ensures
            b == self@.admits(ops@),
    {
        if self.regions.len() == usize::MAX || !countable(ops) {
            return false;
        }
        let shape = RegionShape::probe(RegionIndex(self.regions.len()), ops);
        let start = self.columns.start_row(shape.columns());
        if start > usize::MAX - shape.row_count() {
            return false;
        }
        let mut placed: Vec<RegionStart> = Vec::new();
        placed.push(RegionStart(start));
        assert(self@.placed(ops@).regions =~= self.regions@ + placed@);
        names_within_reach(&self.regions, &placed, ops)
    }

    /// Whether the batch of regions `assignments` can be laid out next: the
    /// machine can number the rows of each region, and the cells that the
    /// steps name lie in regions of the batch or in earlier ones.
    /// [`Self::assign_regions`] asks for this.
    pub fn admits_all(&self, assignments: &Vec<Vec<RegionOp<F>>>) -> (b: bool)
        ensures
            b == self@.admits_all(scripts_view(assignments@)),
    {
        let ghost before = self@;
        let ghost scripts = scripts_view(assignments@);
        let mut columns = self.columns.copy();
        let mut placed: Vec<RegionStart> = Vec::new();
        let mut i: usize = 0;
        proof {
            assert(scripts.subrange(0, 0) =~= Seq::empty());
            before.lemma_placed_none();
            assert(self.regions@ + placed@ =~= self.regions@);
        }
        while i < assignments.len()
            invariant
                i <= assignments@.len(),
                scripts == scripts_view(assignments@),
                before == self@,
                placed@.len() == i,
                columns@ == before.placed_all(scripts.subrange(0, i as int)).columns,
                self.regions@ + placed@ == before.placed_all(scripts.subrange(0, i as int)).regions,
                forall|j: int|
                    0 <= j < i ==> before.placed_all(scripts.subrange(0, j)).can_place(
                        #[trigger] scripts[j],
                    ),
            decreases assignments@.len() - i,
        {
            let ghost ops = scripts[i as int];
            let ghost at = before.placed_all(scripts.subrange(0, i as int));
            assert(ops == assignments@[i as int]@);
            let count = self.regions.len();
            if count > usize::MAX - i - 1 || !countable(assignments[i].as_slice()) {
                assert(!at.can_place(ops));
                return false;
            }
            let shape = RegionShape::probe(RegionIndex(count + i), assignments[i].as_slice());
            let start = columns.start_row(shape.columns());
            if start > usize::MAX - shape.row_count() {
                assert(!at.can_place(ops));
                return false;
            }
            columns.claim(shape.columns(), start + shape.row_count());
            placed.push(RegionStart(start));
            proof {
                before.lemma_placed_next(scripts, i as int);
                assert(self.regions@ + placed@ =~= at.regions.push(RegionStart(start)));
            }
            i = i + 1;
        }
        assert(scripts.subrange(0, i as int) =~= scripts);
        let mut j: usize = 0;
        while j < assignments.len()
            invariant
                j <= assignments@.len(),
                scripts == scripts_view(assignments@),
                before == self@,
                forall|j: int|
                    0 <= j < scripts.len() ==> before.placed_all(scripts.subrange(0, j)).can_place(
                        #[trigger] scripts[j],
                    ),
                self.regions@ + placed@ == before.placed_all(scripts).regions,
                forall|k: int|
                    0 <= k < j ==> before.placed_all(scripts).names_cells_in_reach(
                        #[trigger] scripts[k],
                    ),
            decreases assignments@.len() - j,
        {
            assert(scripts[j as int] == assignments@[j as int]@);
            if !names_within_reach(&self.regions, &placed, assignments[j].as_slice()) {
                assert(!before.placed_all(scripts).names_cells_in_reach(scripts[j as int]));
                return false;
            }
            j = j + 1;
        }
        true
    }

    /// Whether the step `step` can be taken next. [`Self::step`] asks for
    /// this.
    pub fn admits_step(&self, step: &Step<F>) -> (b: bool)
        ensures
            b == self@.admits_step(step@),
    {
        match step {
            Step::AssignRegion { name, ops } => self.admits(ops.as_slice()),
            Step::AssignRegions { name, assignments } => {
                assert(scripts_view(assignments@) == step@->AssignRegions_scripts);
                self.admits_all(assignments)
            },
            Step::AssignTable { name, cells } => true,
            Step::ConstrainInstance { cell, instance, row } => {
                let none: Vec<RegionStart> = Vec::new();
                assert(self.regions@ + none@ =~= self.regions@);
                cell_within_reach(&self.regions, &none, cell)
            },
        }
    }

    /// Lays out the region whose routine takes the steps `ops`, and returns
    /// its index.
    ///
    /// The region is measured, placed at the first row at which all of its
    /// columns are free, and assigned there. Then the constants that it asked
    /// for are assigned to the first column for constants, in the order in
    /// which it asked, and each cell is constrained to equal its constant.
    ///
    /// Fails with the error of the first step that the assembly refuses, and
    /// with `NotEnoughColumnsForConstants` when the region asked for a
    /// constant and there is no column for constants. The region stays
    /// placed when it fails. Where a step fails, no constant is assigned;
    /// rows are claimed for the constants only where all are assigned.
    pub fn assign_region(&mut self, name: &str, ops: &[RegionOp<F>]) -> (r: Result<
        RegionIndex,
        Error,
    >)
        requires
            old(self)@.wf(),
            old(self)@.admits(ops@),
        ensures
            final(self)@.wf(),
            final(self)@.cs.same_frame(old(self)@.cs),
            *final(final(self).cs) == *final(old(self).cs),
            match old(self)@.assign_region(ops@) {
                Ok(after) => r == Ok::<RegionIndex, Error>(old(self)@.next_index()) && final(self)@
                    == after,
                Err(e) => r == Err::<RegionIndex, Error>(e),
            },
            final(self)@ == old(self)@.after_region(ops@),
    {
        let region_index = RegionIndex(self.regions.len());
        proof {
            old(self)@.lemma_admitted_ops_in_reach(ops@);
        }

        // Get shape of the region.
        let shape = RegionShape::probe(region_index, ops);

        // Lay out this region. We implement the simplest approach here: position the
        // region starting at the earliest row for which none of the columns are in use.
        let region_start = self.columns.place(&shape);
        self.regions.push(RegionStart(region_start));
        assert(self@ == old(self)@.placed(ops@));

        // Assign region cells.
        let (result, constants_to_assign) = materialize(
            self.cs,
            &self.regions,
            region_index,
            ops,
            name,
        );
        proof {
            lemma_run_requests_in_reach(
                RegionView::begin(old(self)@.cs),
                self.regions@,
                region_index,
                ops@,
            );
        }
        if let Err(e) = result {
            return Err(e);
        }

        // Assign constants. For the simple floor planner, we assign constants in order in
        // the first `constants` column.
        assign_constants_to_column(
            self.cs,
            &mut self.columns,
            &self.regions,
            &self.constants,
            &constants_to_assign,
        )?;
        Ok(region_index)
    }

    /// Measures and places the regions of a batch, one after the other.
    /// Returns the rows and the index of each.
    fn place_regions(&mut self, assignments: &Vec<Vec<RegionOp<F>>>) -> (r: (
        Vec<Range<usize>>,
        Vec<RegionIndex>,
    ))
        requires
            forall|i: int|
                0 <= i < assignments@.len() ==> old(self)@.placed_all(
                    scripts_view(assignments@).subrange(0, i),
                ).can_place(#[trigger] scripts_view(assignments@)[i]),
        ensures
            final(self)@ == old(self)@.placed_all(scripts_view(assignments@)),
            *final(final(self).cs) == *final(old(self).cs),
            r.0@ == old(self)@.row_ranges(scripts_view(assignments@)),
            r.1@ == batch_indices(old(self)@.regions.len(), assignments@.len()),
    {
        let ghost before = self@;
        let ghost scripts = scripts_view(assignments@);
        let ghost first = self.regions@.len();
        let mut ranges: Vec<Range<usize>> = Vec::new();
        let mut indices: Vec<RegionIndex> = Vec::new();
        let mut i: usize = 0;
        proof {
            assert(scripts.subrange(0, 0) =~= Seq::empty());
            before.lemma_placed_none();
        }
        while i < assignments.len()
            invariant
                i <= assignments@.len(),
                scripts == scripts_view(assignments@),
                before == old(self)@,
                forall|i: int|
                    0 <= i < scripts.len() ==> before.placed_all(scripts.subrange(0, i)).can_place(
                        #[trigger] scripts[i],
                    ),
                first == before.regions.len(),
                self@ == before.placed_all(scripts.subrange(0, i as int)),
                *final(self.cs) == *final(old(self).cs),
                self.regions@.len() == first + i,
                ranges@.len() == i,
                indices@ == batch_indices(first, i as nat),
                forall|j: int|
                    0 <= j < i ==> (#[trigger] ranges@[j]) == before.placed_all(
                        scripts.subrange(0, j),
                    ).row_range(scripts[j]),
            decreases assignments@.len() - i,
        {
            // Get shape of the ith sub-region.
            let ghost ops = scripts[i as int];
            assert(ops == assignments@[i as int]@);
            assert(self@.can_place(ops));
            let index = RegionIndex(self.regions.len());
            let shape = RegionShape::probe(index, assignments[i].as_slice());
            let region_start = self.columns.place(&shape);
            self.regions.push(RegionStart(region_start));
            ranges.push(region_start..region_start + shape.row_count());
            indices.push(index);
            proof {
                before.lemma_placed_next(scripts, i as int);
                assert(self@ == before.placed_all(scripts.subrange(0, i + 1)));
                assert(indices@ =~= batch_indices(first, (i + 1) as nat));
            }
            i = i + 1;
        }
        assert(scripts.subrange(0, i as int) =~= scripts);
        assert(ranges@ =~= before.row_ranges(scripts));
        (ranges, indices)
    }

    /// Lays out a batch of regions, one for each routine of `assignments`,
    /// and returns their indices.
    ///
    /// The regions are measured and placed one after the other. Then the
    /// assembly is forked into one context for the rows of each region, the
    /// regions are assigned in parallel, each in its own context, and the
    /// contexts are merged back in the order of the regions. At last the
    /// constants that the regions asked for are assigned, in the order of
    /// the regions.
    ///
    /// Fails with `Synthesis` when the rows of the regions do not follow one
    /// another within the window of the assembly; otherwise with the error
    /// of the first region that failed, every region having run to its end
    /// or to its own first error; otherwise as the assignment of the
    /// constants fails. The regions stay placed when the batch fails. Where
    /// a region fails, nothing is merged back: the assembly holds what it
    /// held before the batch. Rows are claimed for the constants only where
    /// all are assigned.
    pub fn assign_regions(&mut self, name: &str, assignments: &Vec<Vec<RegionOp<F>>>) -> (r: Result<
        Vec<RegionIndex>,
        Error,
    >) where F: Send + Sync
        requires
            old(self)@.wf(),
            old(self)@.admits_all(scripts_view(assignments@)),
        ensures
            final(self)@.wf(),
            final(self)@.cs.same_frame(old(self)@.cs),
            *final(final(self).cs) == *final(old(self).cs),
            match old(self)@.assign_regions(scripts_view(assignments@)) {
                Ok(after) => final(self)@ == after && (r matches Ok(indices) && indices@
                    == batch_indices(old(self)@.regions.len(), assignments@.len())),
                Err(e) => r matches Err(f) && f == e,
            },
            final(self)@ == old(self)@.after_regions(scripts_view(assignments@)),
    {
        let ghost before = self@;
        let ghost scripts = scripts_view(assignments@);

        // Get region shapes sequentially
        let (ranges, indices) = self.place_regions(assignments);
        proof {
            lemma_placed_all_regions(before, scripts);
        }

        // Do actual synthesis of sub-regions in parallel
        let mut sub_cs = match self.cs.fork(ranges.as_slice()) {
            Ok(sub_cs) => sub_cs,
            Err(e) => {
                return Err(e);
            },
        };
        let ghost windows = assembly_views(sub_cs@);
        assert(sub_cs@.len() == windows.len());
        assert forall|j: int| 0 <= j < assignments@.len() implies ops_in_reach(
            self.regions@,
            indices@[j],
            (#[trigger] assignments@[j])@,
        ) by {
            assert(scripts[j] == assignments@[j]@);
            before.lemma_batch_ops_in_reach(scripts, j);
        }
        let ret = materialize_all(&mut sub_cs, &self.regions, &indices, assignments, name);
        let ghost subs = assembly_views(sub_cs@);
        proof {
            assert forall|j: int| 0 <= j < scripts.len() implies materialized(
                before.cs.window(before.row_ranges(scripts)[j]),
                before.placed_all(scripts).regions,
                RegionIndex((before.regions.len() + j) as usize),
                #[trigger] scripts[j],
                subs[j],
                ret@[j],
            ) by {
                assert(windows[j] == before.cs.window(ranges@[j]));
                let _ = ret@[j];
                assert(scripts[j] == assignments@[j]@);
            }
            lemma_batch_outcomes(before, scripts, subs, ret@);
            assert forall|j: int| 0 <= j < sub_cs@.len() implies (#[trigger] sub_cs@[j])@.wf() by {
                assert(subs[j].wf());
            }
        }

        // Check if there are errors in sub-region synthesis
        first_failure(&ret)?;
        self.cs.merge(sub_cs)?;

        // Merge all constants from sub-regions together
        let constants_to_assign = collect_requests(&ret);

        // Assign constants. For the simple floor planner, we assign constants in order in
        // the first `constants` column.
        assign_constants_to_column(
            self.cs,
            &mut self.columns,
            &self.regions,
            &self.constants,
            &constants_to_assign,
        )?;
        Ok(indices)
    }

    /// Lays out the lookup table whose routine assigns the cells `cells`.
    ///
    /// Fails with `Synthesis` when a cell lies in a column of a table that
    /// is complete, when row 0 of a column is assigned twice, when the table
    /// has no column, when a column has a gap, or when two columns differ in
    /// length; and with the error of the assembly when it refuses a cell or
    /// the filling of a column. A table that fails before its columns are
    /// filled seals no column and fills none.
    pub fn assign_table(&mut self, name: &str, cells: &[TableCell<F>]) -> (r: Result<(), Error>)
        requires
            old(self)@.wf(),
        ensures
            final(self)@.wf(),
            final(self)@.cs.same_frame(old(self)@.cs),
            *final(final(self).cs) == *final(old(self).cs),
            match old(self)@.assign_table(cells@) {
                Ok(after) => r is Ok && final(self)@ == after,
                Err(e) => r == Err::<(), Error>(e),
            },
            final(self)@ == old(self)@.after_table(cells@),
    {
        // Assign table cells.
        self.cs.enter_region(name);
        let mut table = SimpleTableLayouter::new(self.cs, &self.table_columns);
        let result = table.assign_cells(cells);
        let default_and_assigned = table.default_and_assigned;
        if let Err(e) = result {
            return Err(e);
        }
        self.cs.exit_region();
        let ghost assigned = TableView::begin(old(self)@.cs).assign_cells(
            old(self)@.table_columns,
            cells@,
        )->Ok_0;
        let ghost entries = assigned.entries;
        assert(entries == entry_views(default_and_assigned@));

        // Check that all table columns have the same length `first_unused`,
        // and all cells up to that length are assigned.
        let first_unused = match common_length(&default_and_assigned) {
            Some(length) => length,
            None => {
                assert(assigned.common_length() is None);
                return Err(Error::Synthesis);
            },
        };
        assert(assigned.common_length() == Some(first_unused as nat));

        // Record these columns so that we can prevent them from being used again.
        let mut i: usize = 0;
        while i < default_and_assigned.len()
            invariant
                i <= default_and_assigned@.len(),
                entries == entry_views(default_and_assigned@),
                self@.cs == assigned.cs,
                *final(self.cs) == *final(old(self).cs),
                self@.constants == old(self)@.constants,
                self@.regions == old(self)@.regions,
                self@.columns == old(self)@.columns,
                self@.table_columns == old(self)@.table_columns + entry_columns(
                    entries.subrange(0, i as int),
                ),
            decreases default_and_assigned@.len() - i,
        {
            self.table_columns.push(default_and_assigned[i].column);
            i = i + 1;
            assert(self@.table_columns =~= old(self)@.table_columns + entry_columns(
                entries.subrange(0, i as int),
            ));
        }
        assert(entries.subrange(0, i as int) =~= entries);

        let mut i: usize = 0;
        assert(entries.subrange(0, 0) =~= Seq::empty());
        while i < default_and_assigned.len()
            invariant
                i <= default_and_assigned@.len(),
                entries == entry_views(default_and_assigned@),
                assigned.wf(),
                entries == assigned.entries,
                TableView::begin(old(self)@.cs).assign_cells(old(self)@.table_columns, cells@)
                    == Ok::<TableView<F>, Error>(assigned),
                assigned.common_length() == Some(first_unused as nat),
                self@.cs.wf(),
                self@.cs.same_frame(old(self)@.cs),
                *final(self.cs) == *final(old(self).cs),
                self@.constants == old(self)@.constants,
                self@.regions == old(self)@.regions,
                self@.columns == old(self)@.columns,
                self@.table_columns == old(self)@.table_columns + entry_columns(entries),
                fill_defaults(assigned.cs, entries.subrange(0, i as int), first_unused)
                    == Ok::<AssemblyView<F>, Error>(self@.cs),
            decreases default_and_assigned@.len() - i,
        {
            let entry = &default_and_assigned[i];
            assert(entry@ == entries[i as int]);
            assert(entries[i as int].wf() && entries[i as int].complete());
            assert(entries[i as int].assigned[0]);
            assert(entries.subrange(0, i + 1).drop_last() =~= entries.subrange(0, i as int));
            assert(entries.subrange(0, i + 1).last() == entries[i as int]);
            assert(entry.default is Some);
            // default_val must be Some because we must have assigned
            // at least one cell in each column, and in that case we checked
            // that all cells up to first_unused were assigned.
            let default_val = match entry.default {
                Some(value) => value,
                None => Value::unknown(),
            };
            let filled = self.cs.fill_from_row(entry.column.inner(), first_unused, default_val);
            if let Err(e) = filled {
                proof {
                    lemma_fill_defaults_stops(assigned.cs, entries, first_unused, i + 1);
                }
                return Err(e);
            }
            i = i + 1;
        }
        assert(entries.subrange(0, i as int) =~= entries);
        Ok(())
    }

    /// Takes the step `step` of a synthesis.
    pub fn step(&mut self, step: &Step<F>) -> (r: Result<(), Error>) where F: Send + Sync
        requires
            old(self)@.wf(),
            old(self)@.admits_step(step@),
        ensures
            final(self)@.wf(),
            final(self)@.cs.same_frame(old(self)@.cs),
            *final(final(self).cs) == *final(old(self).cs),
            match old(self)@.step(step@) {
                Ok(after) => r is Ok && final(self)@ == after,
                Err(e) => r == Err::<(), Error>(e),
            },
            final(self)@ == old(self)@.after_step(step@),
    {
        match step {
            Step::AssignRegion { name, ops } => {
                let _ = self.assign_region(name.as_str(), ops.as_slice())?;
                Ok(())
            },
            Step::AssignRegions { name, assignments } => {
                assert(scripts_view(assignments@) == step@->AssignRegions_scripts);
                let _ = self.assign_regions(name.as_str(), assignments)?;
                Ok(())
            },
            Step::AssignTable { name, cells } => self.assign_table(name.as_str(), cells.as_slice()),
            Step::ConstrainInstance { cell, instance, row } => self.constrain_instance(
                *cell,
                *instance,
                *row,
            ),
        }
    }

    /// Takes the steps `steps` of a synthesis in their order, and stops at
    /// the first that fails: what the steps before it have laid out stays.
    pub fn synthesize(&mut self, steps: &Vec<Step<F>>) -> (r: Result<(), Error>) where
        F: Send + Sync,

        requires
            old(self)@.wf(),
            old(self)@.admits_steps(step_views(steps@)),
        ensures
            final(self)@.wf(),
            final(self)@.cs.same_frame(old(self)@.cs),
            *final(final(self).cs) == *final(old(self).cs),
            match old(self)@.synthesize(step_views(steps@)) {
                Ok(after) => r is Ok && final(self)@ == after,
                Err(e) => r == Err::<(), Error>(e),
            },
            final(self)@ == old(self)@.after_synthesis(step_views(steps@)),
    {
        let ghost views = step_views(steps@);
        let mut i: usize = 0;
        assert(views.subrange(0, 0) =~= Seq::empty());
        while i < steps.len()
            invariant
                i <= steps@.len(),
                views == step_views(steps@),
                self@ == old(self)@.after_synthesis(views.subrange(0, i as int)),
                old(self)@.admits_steps(views),
                self@.wf(),
                self@.cs.same_frame(old(self)@.cs),
                *final(self.cs) == *final(old(self).cs),
                old(self)@.synthesize(views.subrange(0, i as int)) == Ok::<LayouterView<F>, Error>(
                    self@,
                ),
            decreases steps@.len() - i,
        {
            proof {
                old(self)@.lemma_admits_prefix(views, i + 1);
                assert(views.subrange(0, i + 1).drop_last() =~= views.subrange(0, i as int));
                assert(views.subrange(0, i + 1).last() == steps@[i as int]@);
            }
            let taken = self.step(&steps[i]);
            if let Err(e) = taken {
                proof {
                    old(self)@.lemma_synthesize_stops(views, i + 1);
                }
                return Err(e);
            }
            i = i + 1;
        }
        assert(views.subrange(0, i as int) =~= views);
        Ok(())
    }

    /// Takes the steps `steps` of a synthesis in their order, as
    /// [`Self::synthesize`] does, after testing before each step whether it
    /// can be taken. Returns nothing where a step that is reached cannot be
    /// taken: it names a cell of a region that is not placed, or a row that
    /// the machine cannot number. That step and the steps after it are not
    /// taken.
    pub fn try_synthesize(&mut self, steps: &Vec<Step<F>>) -> (r: Option<Result<(), Error>>) where
        F: Send + Sync,

        requires
            old(self)@.wf(),
        ensures
            final(self)@.wf(),
            final(self)@.cs.same_frame(old(self)@.cs),
            *final(final(self).cs) == *final(old(self).cs),
            r is Some <==> old(self)@.admits_steps(step_views(steps@)),
            r matches Some(result) ==> match old(self)@.synthesize(step_views(steps@)) {
                Ok(after) => result is Ok && final(self)@ == after,
                Err(e) => result == Err::<(), Error>(e),
            },
            final(self)@ == old(self)@.after_checked_synthesis(step_views(steps@)),
    {
        let ghost views = step_views(steps@);
        let mut i: usize = 0;
        assert(views.subrange(0, 0) =~= Seq::empty());
        while i < steps.len()
            invariant
                i <= steps@.len(),
                views == step_views(steps@),
                self@ == old(self)@.after_checked_synthesis(views.subrange(0, i as int)),
                old(self)@.admits_steps(views.subrange(0, i as int)),
                self@.wf(),
                self@.cs.same_frame(old(self)@.cs),
                *final(self.cs) == *final(old(self).cs),
                old(self)@.synthesize(views.subrange(0, i as int)) == Ok::<LayouterView<F>, Error>(
                    self@,
                ),
            decreases steps@.len() - i,
        {
            proof {
                assert(views.subrange(0, i + 1).drop_last() =~= views.subrange(0, i as int));
                assert(views.subrange(0, i + 1).last() == steps@[i as int]@);
            }
            if !self.admits_step(&steps[i]) {
                proof {
                    assert(!old(self)@.admits_steps(views.subrange(0, i + 1)));
                    old(self)@.lemma_checked_synthesis_stops(views, i + 1);
                    if old(self)@.admits_steps(views) {
                        old(self)@.lemma_admits_prefix(views, i + 1);
                    }
                }
                return None;
            }
            let taken = self.step(&steps[i]);
            if let Err(e) = taken {
                proof {
                    old(self)@.lemma_synthesize_stops(views, i + 1);
                    old(self)@.lemma_admits_after_failure(views, i + 1);
                    old(self)@.lemma_checked_synthesis_stops(views, i + 1);
                }
                return Some(Err(e));
            }
            i = i + 1;
        }
        assert(views.subrange(0, i as int) =~= views);
        Some(Ok(()))
    }

    /// Constrains `cell` to equal the instance cell at the absolute row `row`
    /// of `instance`.
    pub fn constrain_instance(&mut self, cell: Cell, instance: Column<Instance>, row: usize) -> (r:
        Result<(), Error>)
        requires
            old(self)@.wf(),
            cell_in_reach(old(self)@.regions, cell),
        ensures
            final(self)@.wf(),
            *final(final(self).cs) == *final(old(self).cs),
            match old(self)@.constrain_instance(cell, instance, row) {
                Ok(after) => r is Ok && final(self)@ == after,
                Err(e) => r == Err::<(), Error>(e) && final(self)@ == old(self)@,
            },
    {
        let cell_row = self.regions[cell.region_index.0].0 + cell.row_offset;
        self.cs.copy(cell.column, cell_row, instance.any(), row)
    }

    /// Opens a namespace for what is laid out next.
    pub fn push_namespace(&mut self, name: &str)
        ensures
            final(self)@ == old(self)@,
            *final(final(self).cs) == *final(old(self).cs),
    {
        self.cs.push_namespace(name)
    }

    /// Closes the innermost namespace.
    pub fn pop_namespace(&mut self, gadget_name: Option<String>)
        ensures
            final(self)@ == old(self)@,
            *final(final(self).cs) == *final(old(self).cs),
    {
        self.cs.pop_namespace(gadget_name)
    }

    /// A challenge of the verifier, as the assembly knows it.
    pub fn get_challenge(&self, challenge: Challenge) -> (v: Value<F>)
        ensures
            v.inner is None,
    {
        self.cs.get_challenge(challenge)
    }
}

/// Synthesis is deterministic: two runs from the same assembly, with the
/// same columns for constants and the same steps, end alike. Both succeed or
/// both fail with the same error, and they leave the same assembly: the
/// same fixed cells, hence the same rows for the constants, the same
/// selectors and the same equality constraints in the same order.
pub proof fn lemma_synthesis_is_deterministic<F>(
    cs: AssemblyView<F>,
    constants: Seq<Column<Fixed>>,
    steps: Seq<StepView<F>>,
    first: (AssemblyView<F>, Result<(), Error>),
    second: (AssemblyView<F>, Result<(), Error>),
)
    requires
        synthesis_gave(cs, constants, steps, first.0, first.1),
        synthesis_gave(cs, constants, steps, second.0, second.1),
    ensures
        first.1 is Ok <==> second.1 is Ok,
        first.1 is Err ==> first.1 == second.1,
        first.0 == second.0,
{
}

/// Whether a synthesis of `steps` that started from the assembly `cs` has
/// left the assembly `after` and returned `result`: what
/// [`SimpleFloorPlanner::synthesize`] ensures. Where a step fails, the
/// assembly holds what the steps before it and the failing step have left.
pub open spec fn synthesis_gave<F>(
    cs: AssemblyView<F>,
    constants: Seq<Column<Fixed>>,
    steps: Seq<StepView<F>>,
    after: AssemblyView<F>,
    result: Result<(), Error>,
) -> bool {
    &&& after == LayouterView::begin(cs, constants).after_synthesis(steps).cs
    &&& match LayouterView::begin(cs, constants).synthesize(steps) {
        Ok(layouter) => result is Ok && after == layouter.cs,
        Err(e) => result == Err::<(), Error>(e),
    }
}

impl<F> LayouterView<F> {
    /// A table with a cell in a column of a table that is complete cannot be
    /// laid out.
    pub proof fn lemma_sealed_column_is_refused(self, cells: Seq<TableCell<F>>, j: int)
        requires
            self.wf(),
            0 <= j < cells.len(),
            self.table_columns.contains(cells[j].column),
        ensures
            self.assign_table(cells) is Err,
    {
        TableView::begin(self.cs).lemma_used_column_is_refused(self.table_columns, cells, j);
    }

    /// A table in which row 0 of a column is assigned twice cannot be laid
    /// out.
    pub proof fn lemma_row_zero_twice_is_refused(self, cells: Seq<TableCell<F>>, i: int, j: int)
        requires
            self.wf(),
            0 <= i < j < cells.len(),
            cells[i].column == cells[j].column,
            cells[i].offset == 0,
            cells[j].offset == 0,
        ensures
            self.assign_table(cells) is Err,
    {
        TableView::begin(self.cs).lemma_second_default_fails(self.table_columns, cells, i, j);
    }

    /// A table that is laid out seals its columns: each column of its cells
    /// counts as used from then on, and so does every column that did
    /// before.
    pub proof fn lemma_assign_table_seals(self, cells: Seq<TableCell<F>>)
        requires
            self.wf(),
            self.assign_table(cells) is Ok,
        ensures
            ({
                let after = self.assign_table(cells)->Ok_0;
                &&& after.wf()
                &&& after.cs.same_frame(self.cs)
                &&& forall|i: int|
                    0 <= i < cells.len() ==> after.table_columns.contains(
                        (#[trigger] cells[i]).column,
                    )
                &&& forall|c: TableColumn|
                    self.table_columns.contains(c) ==> after.table_columns.contains(c)
            }),
    {
        let begun = TableView::begin(self.cs);
        begun.lemma_assign_cells(self.table_columns, cells);
        let table = begun.assign_cells(self.table_columns, cells)->Ok_0;
        let first_unused = table.common_length()->0 as usize;
        lemma_fill_defaults_by_frame(table.cs, table.cs, table.entries, first_unused);
        let after = self.assign_table(cells)->Ok_0;
        let sealed = entry_columns(table.entries);
        assert forall|i: int| 0 <= i < cells.len() implies after.table_columns.contains(
            (#[trigger] cells[i]).column,
        ) by {
            let at = position(table.entries, cells[i].column);
            lemma_position(table.entries, cells[i].column);
            assert(table.has_entry(cells[i].column));
            assert(sealed[at] == cells[i].column);
            assert(after.table_columns[self.table_columns.len() + at] == cells[i].column);
        }
        assert forall|c: TableColumn| self.table_columns.contains(c) implies after.table_columns.contains(
            c,
        ) by {
            let k = choose|k: int| 0 <= k < self.table_columns.len() && self.table_columns[k] == c;
            assert(after.table_columns[k] == c);
        }
    }

    /// A table cannot be laid out twice in one pass: once it is laid out, a
    /// table with a cell in one of its columns is refused.
    pub proof fn lemma_table_twice_in_one_pass_fails(
        self,
        cells: Seq<TableCell<F>>,
        again: Seq<TableCell<F>>,
        i: int,
        j: int,
    )
        requires
            self.wf(),
            self.assign_table(cells) is Ok,
            0 <= i < cells.len(),
            0 <= j < again.len(),
            again[j].column == cells[i].column,
        ensures
            self.assign_table(cells)->Ok_0.assign_table(again) is Err,
    {
        self.lemma_assign_table_seals(cells);
        self.assign_table(cells)->Ok_0.lemma_sealed_column_is_refused(again, j);
    }

    /// A table that can be laid out in one pass can be laid out in every
    /// pass over a grid of the same frame in which the same columns are
    /// sealed, whatever the assemblies hold: in a fresh pass, it succeeds
    /// again.
    pub proof fn lemma_assign_table_by_frame(self, other: Self, cells: Seq<TableCell<F>>)
        requires
            self.wf(),
            other.wf(),
            self.cs.same_frame(other.cs),
            self.table_columns == other.table_columns,
            self.assign_table(cells) is Ok,
        ensures
            other.assign_table(cells) is Ok,
    {
        let mine = TableView::begin(self.cs);
        let theirs = TableView::begin(other.cs);
        mine.lemma_assign_cells_by_frame(theirs, self.table_columns, cells);
        mine.lemma_assign_cells(self.table_columns, cells);
        theirs.lemma_assign_cells(self.table_columns, cells);
        let a = mine.assign_cells(self.table_columns, cells)->Ok_0;
        let b = theirs.assign_cells(self.table_columns, cells)->Ok_0;
        assert(a.common_length() == b.common_length());
        lemma_fill_defaults_by_frame(a.cs, b.cs, a.entries, a.common_length()->0 as usize);
    }

    /// Placing regions only claims rows: no column is free earlier than it
    /// was.
    pub proof fn lemma_placed_all_claims(self, scripts: Seq<Seq<RegionOp<F>>>, c: RegionColumn)
        ensures
            first_free(self.columns, c) <= first_free(self.placed_all(scripts).columns, c),
        decreases scripts.len(),
    {
        reveal(LayouterView::placed_all);
        if scripts.len() > 0 {
            self.lemma_placed_all_claims(scripts.drop_last(), c);
            let before = self.placed_all(scripts.drop_last());
            lemma_place(before.columns, ShapeView::of(before.next_index(), scripts.last()));
        }
    }

    /// A step of a synthesis only adds to the layout, whether it succeeds or
    /// fails: the regions that were placed keep their start rows, and no
    /// column is free earlier than it was. Rows are never given back.
    pub proof fn lemma_step_only_adds(self, step: StepView<F>)
        ensures
            self.regions.len() <= self.after_step(step).regions.len(),
            self.after_step(step).regions.subrange(0, self.regions.len() as int) == self.regions,
            forall|c: RegionColumn|
                first_free(self.columns, c) <= #[trigger] first_free(
                    self.after_step(step).columns,
                    c,
                ),
    {
        let after = self.after_step(step);
        match step {
            StepView::AssignRegion { ops } => {
                let placed = self.placed(ops);
                lemma_place(self.columns, ShapeView::of(self.next_index(), ops));
                assert forall|c: RegionColumn|
                    first_free(self.columns, c) <= #[trigger] first_free(after.columns, c) by {
                    assert(first_free(self.columns, c) <= first_free(placed.columns, c));
                    assert(first_free(placed.columns, c) <= first_free(after.columns, c));
                }
            },
            StepView::AssignRegions { scripts } => {
                let placed = self.placed_all(scripts);
                lemma_placed_all_regions(self, scripts);
                assert forall|c: RegionColumn|
                    first_free(self.columns, c) <= #[trigger] first_free(after.columns, c) by {
                    self.lemma_placed_all_claims(scripts, c);
                    assert(first_free(placed.columns, c) <= first_free(after.columns, c));
                }
            },
            StepView::AssignTable { cells } => {},
            StepView::ConstrainInstance { cell, instance, row } => {},
        }
        assert(after.regions.subrange(0, self.regions.len() as int) =~= self.regions);
    }

    /// No step of a synthesis unseals a column, whether it succeeds or
    /// fails.
    pub proof fn lemma_step_keeps_sealed(self, step: StepView<F>, column: TableColumn)
        requires
            self.table_columns.contains(column),
        ensures
            self.after_step(step).table_columns.contains(column),
    {
        let after = self.after_step(step);
        let k = choose|k: int| 0 <= k < self.table_columns.len() && self.table_columns[k] == column;
        match step {
            StepView::AssignRegion { ops } => {},
            StepView::AssignRegions { scripts } => {
                lemma_placed_all_regions(self, scripts);
            },
            StepView::AssignTable { cells } => {
                assert(after.table_columns[k] == column);
            },
            StepView::ConstrainInstance { cell, instance, row } => {},
        }
    }

    /// A column that is sealed is never written again: a lookup table that
    /// is laid out later, whether that succeeds or fails, assigns no cell
    /// of the column and does not fill it.
    pub proof fn lemma_sealed_columns_are_not_written(
        self,
        cells: Seq<TableCell<F>>,
        column: TableColumn,
    )
        requires
            self.wf(),
            self.table_columns.contains(column),
        ensures
            self.after_table(cells).cs.fixed.len() == self.cs.fixed.len(),
            column.inner.index < self.cs.fixed.len() ==> self.after_table(
                cells,
            ).cs.fixed[column.inner.index as int] == self.cs.fixed[column.inner.index as int],
    {
        let begun = TableView::begin(self.cs);
        begun.lemma_after_cells_spares_used(self.table_columns, cells, column);
        if let Ok(table) = begun.assign_cells(self.table_columns, cells) {
            if let Some(first_unused) = table.common_length() {
                assert forall|i: int| 0 <= i < table.entries.len() implies (
                #[trigger] table.entries[i]).column.inner.index != column.inner.index by {
                    if table.entries[i].column.inner.index == column.inner.index {
                        TableColumn::lemma_same_index(table.entries[i].column, column);
                    }
                }
                lemma_after_fill_defaults_spares(
                    table.cs,
                    table.entries,
                    first_unused as usize,
                    column.inner.index,
                );
            }
        }
    }

    /// What a region that fails leaves behind. The region is placed: its
    /// start row is recorded and its rows are claimed, and no row is claimed
    /// for constants. Where it is a step that fails, the assembly holds what
    /// the steps before it have done: no constant is assigned or tied to a
    /// cell.
    pub proof fn lemma_failed_region(self, ops: Seq<RegionOp<F>>)
        requires
            self.assign_region(ops) is Err,
        ensures
            ({
                let after = self.after_region(ops);
                let placed = self.placed(ops);
                let begun = RegionView::begin(self.cs);
                &&& after.regions == placed.regions
                &&& after.columns == placed.columns
                &&& after.constants == self.constants
                &&& after.table_columns == self.table_columns
                &&& begun.run(placed.regions, self.next_index(), ops) is Err ==> after.cs
                    == begun.after_run(placed.regions, self.next_index(), ops).cs
            }),
    {
    }

    /// What a batch of regions that fails leaves behind. The regions are
    /// placed: their start rows are recorded and their rows are claimed, and
    /// no row is claimed for constants. Where the rows cannot be forked or a
    /// region fails, the assembly is as it was.
    pub proof fn lemma_failed_regions(self, scripts: Seq<Seq<RegionOp<F>>>)
        requires
            self.assign_regions(scripts) is Err,
        ensures
            ({
                let after = self.after_regions(scripts);
                let placed = self.placed_all(scripts);
                &&& after.regions == placed.regions
                &&& after.columns == placed.columns
                &&& after.constants == self.constants
                &&& after.table_columns == self.table_columns
                &&& self.fails_before_merge(scripts) ==> after.cs == self.cs
            }),
    {
        lemma_placed_all_regions(self, scripts);
    }

    /// What a lookup table that fails leaves behind. The regions, the rows
    /// that are claimed and the columns for constants are as they were.
    /// Where a cell fails or the columns share no length, no column is
    /// sealed; where the filling fails, the columns of the table are.
    pub proof fn lemma_failed_table(self, cells: Seq<TableCell<F>>)
        requires
            self.assign_table(cells) is Err,
        ensures
            ({
                let after = self.after_table(cells);
                let assigned = TableView::begin(self.cs).assign_cells(self.table_columns, cells);
                &&& after.regions == self.regions
                &&& after.columns == self.columns
                &&& after.constants == self.constants
                &&& after.table_columns == match assigned {
                    Ok(table) => if table.common_length() is Some {
                        self.table_columns + entry_columns(table.entries)
                    } else {
                        self.table_columns
                    },
                    Err(e) => self.table_columns,
                }
                &&& match assigned {
                    Ok(table) => table.common_length() is None ==> after.cs == table.cs,
                    Err(e) => true,
                }
            }),
    {
    }

    /// A lookup table whose first cell lies in a column that is sealed
    /// changes nothing.
    pub proof fn lemma_sealed_first_cell_changes_nothing(self, cells: Seq<TableCell<F>>)
        requires
            cells.len() > 0,
            self.table_columns.contains(cells[0].column),
        ensures
            self.assign_table(cells) == Err::<Self, Error>(Error::Synthesis),
            self.after_table(cells) == self,
    {
        let begun = TableView::begin(self.cs);
        assert(cells.subrange(0, 1).drop_last() =~= Seq::<TableCell<F>>::empty());
        assert(cells.subrange(0, 1).last() == cells[0]);
        assert(begun.assign_cells(self.table_columns, cells.subrange(0, 1)) is Err);
        lemma_assign_cells_stops(begun, self.table_columns, cells, 1);
    }
}

/// The rows that the constants of `requests` take, as the shape of a region:
/// one row for each request, in the column for constants.
pub open spec fn constants_shape<F>(
    index: RegionIndex,
    constants: Seq<Column<Fixed>>,
    requests: Seq<ConstantRequest<F>>,
) -> ShapeView {
    ShapeView { region_index: index, columns: seq![constants_key(constants)], row_count: requests.len() }
}

impl<F> LayouterView<F> {
    /// The layouter places the regions of a batch as the placement rule
    /// says: the start rows that it records are the start rows of the
    /// shapes, placed one after the other on the columns as they were.
    pub proof fn lemma_batch_follows_placement(self, scripts: Seq<Seq<RegionOp<F>>>)
        requires
            forall|i: int|
                0 <= i < scripts.len() ==> self.placed_all(scripts.subrange(0, i)).can_place(
                    #[trigger] scripts[i],
                ),
        ensures
            self.placed_all(scripts).columns == place_all(
                self.columns,
                batch_shapes(self.regions.len(), scripts),
            ),
            self.placed_all(scripts).regions.len() == self.regions.len() + scripts.len(),
            forall|i: int|
                0 <= i < scripts.len() ==> (#[trigger] self.placed_all(
                    scripts,
                ).regions[self.regions.len() + i]).0 == start_rows(
                    self.columns,
                    batch_shapes(self.regions.len(), scripts),
                )[i],
        decreases scripts.len(),
    {
        reveal(LayouterView::placed_all);
        let first = self.regions.len();
        let shapes = batch_shapes(first, scripts);
        lemma_placed_all_regions(self, scripts);
        if scripts.len() > 0 {
            let front = scripts.drop_last();
            assert forall|i: int| 0 <= i < front.len() implies self.placed_all(
                front.subrange(0, i),
            ).can_place(#[trigger] front[i]) by {
                assert(front.subrange(0, i) =~= scripts.subrange(0, i));
                assert(front[i] == scripts[i]);
            }
            self.lemma_batch_follows_placement(front);
            lemma_placed_all_regions(self, front);
            assert(batch_shapes(first, front) =~= shapes.drop_last());
            assert(scripts.subrange(0, scripts.len() - 1) =~= front);
            assert(self.placed_all(front).can_place(scripts[scripts.len() - 1]));
            lemma_place_all_grows(self.columns, shapes.drop_last());
        }
    }

    /// What a region that is laid out registers: after the equality
    /// constraints that were recorded before come those of its steps, in the
    /// order of the steps, and then those that tie its constants to the cells
    /// that asked for them, in the order of the requests. The constants take
    /// the rows of the column for constants from its first free row on.
    pub proof fn lemma_assign_region_registers(self, ops: Seq<RegionOp<F>>)
        requires
            self.wf(),
            self.assign_region(ops) is Ok,
        ensures
            ({
                let after = self.assign_region(ops)->Ok_0;
                let index = self.next_index();
                let steps = copies_of(after.regions, index, ops);
                &&& after.cs.wf()
                &&& after.cs.same_frame(self.cs)
                &&& after.constants == self.constants
                &&& after.table_columns == self.table_columns
                &&& after.cs.equalities() == if self.constants.len() == 0 {
                    self.cs.equalities() + steps
                } else {
                    self.cs.equalities() + steps + constant_copies(
                        self.constants[0],
                        first_free(self.placed(ops).columns, constants_key(self.constants)),
                        after.regions,
                        requests_of(index, ops),
                    )
                }
            }),
    {
        let placed = self.placed(ops);
        let begun = RegionView::begin(self.cs);
        begun.lemma_run_effects(placed.regions, self.next_index(), ops);
        let region = begun.run(placed.regions, self.next_index(), ops)->Ok_0;
        assert(region.constants =~= requests_of(self.next_index(), ops));
        if self.constants.len() > 0 {
            lemma_assign_constants_effects(
                region.cs,
                self.constants[0],
                first_free(placed.columns, constants_key(self.constants)),
                placed.regions,
                region.constants,
            );
        }
    }

    /// Whether `shapes` are the shapes of the regions that are placed, and
    /// every column of every region is claimed up to the end of the region.
    pub open spec fn keeps_apart(self, shapes: Seq<ShapeView>) -> bool {
        &&& shapes.len() == self.regions.len()
        &&& forall|j: int, c: RegionColumn|
            0 <= j < shapes.len() && #[trigger] shapes[j].columns.contains(c)
                ==> self.regions[j].0 + shapes[j].row_count <= first_free(self.columns, c)
    }

    /// Whether the machine can number the first free row of every column,
    /// as it can in every layouter: see
    /// [`ColumnOccupancy::lemma_rows_numbered`].
    pub open spec fn rows_numbered(self) -> bool {
        forall|c: RegionColumn| #[trigger] first_free(self.columns, c) <= usize::MAX
    }

    /// A region never takes a row of a column that an earlier region has
    /// claimed, whether its assignment succeeds or fails.
    ///
    /// The region starts at the largest first free row among its columns,
    /// and at row zero where it has no column: no column of it is free
    /// later, and one of them is free exactly there. So it starts at the
    /// earliest where every earlier region that shares a column with it
    /// ends, and its own columns are claimed up to its end.
    pub proof fn lemma_assign_region_keeps_regions_apart(
        self,
        shapes: Seq<ShapeView>,
        ops: Seq<RegionOp<F>>,
    )
        requires
            self.rows_numbered(),
            self.keeps_apart(shapes),
        ensures
            ({
                let after = self.after_region(ops);
                let shape = ShapeView::of(self.next_index(), ops);
                let start = start_row(self.columns, shape.columns);
                &&& after.regions == self.regions.push(RegionStart(start as usize))
                &&& start <= usize::MAX
                &&& forall|c: RegionColumn|
                    shape.columns.contains(c) ==> first_free(self.columns, c) <= start
                &&& start == 0 || exists|c: RegionColumn|
                    shape.columns.contains(c) && first_free(self.columns, c) == start
                &&& forall|j: int, c: RegionColumn|
                    0 <= j < shapes.len() && #[trigger] shapes[j].columns.contains(c)
                        && shape.columns.contains(c) ==> self.regions[j].0 + shapes[j].row_count
                        <= start
                &&& forall|c: RegionColumn|
                    shape.columns.contains(c) ==> start + shape.row_count <= first_free(
                        after.columns,
                        c,
                    )
                &&& after.keeps_apart(shapes.push(shape))
            }),
    {
        let after = self.after_region(ops);
        let placed = self.placed(ops);
        let shape = ShapeView::of(self.next_index(), ops);
        let start = start_row(self.columns, shape.columns);
        lemma_start_row(self.columns, shape.columns);
        lemma_place(self.columns, shape);
        assert(start <= usize::MAX) by {
            if start != 0 {
                let c = choose|c: RegionColumn|
                    shape.columns.contains(c) && first_free(self.columns, c) == start;
                assert(first_free(self.columns, c) <= usize::MAX);
            }
        }
        assert forall|c: RegionColumn|
            first_free(placed.columns, c) <= #[trigger] first_free(after.columns, c) by {}
        let grown = shapes.push(shape);
        assert forall|j: int, c: RegionColumn|
            0 <= j < grown.len() && #[trigger] grown[j].columns.contains(c) implies after.regions[j].0
            + grown[j].row_count <= first_free(after.columns, c) by {
            assert(first_free(placed.columns, c) <= first_free(after.columns, c));
            if j < shapes.len() {
                assert(shapes[j].columns.contains(c));
                assert(first_free(self.columns, c) <= first_free(placed.columns, c));
            }
        }
    }

    /// Laying out a region claims rows as the placement rule says: the rows
    /// of the region from its start row on, and then, where there is a
    /// column for constants, one row of that column for each constant that
    /// the region asked for, as a region of that column alone would. So the
    /// constants never take a row that a region has claimed, nor a region a
    /// row that a constant has taken.
    pub proof fn lemma_assign_region_follows_placement(self, ops: Seq<RegionOp<F>>)
        requires
            self.wf(),
            self.assign_region(ops) is Ok,
        ensures
            ({
                let after = self.assign_region(ops)->Ok_0;
                let shape = ShapeView::of(self.next_index(), ops);
                let placed = place(self.columns, shape);
                &&& after.regions == self.regions.push(
                    RegionStart(start_row(self.columns, shape.columns) as usize),
                )
                &&& after.columns == if self.constants.len() == 0 {
                    placed
                } else {
                    place(
                        placed,
                        constants_shape(
                            self.next_index(),
                            self.constants,
                            requests_of(self.next_index(), ops),
                        ),
                    )
                }
            }),
    {
        let placed = self.placed(ops);
        let begun = RegionView::begin(self.cs);
        begun.lemma_run_effects(placed.regions, self.next_index(), ops);
        let region = begun.run(placed.regions, self.next_index(), ops)->Ok_0;
        assert(region.constants =~= requests_of(self.next_index(), ops));
        if self.constants.len() > 0 {
            let key = constants_key(self.constants);
            let shape = constants_shape(
                self.next_index(),
                self.constants,
                requests_of(self.next_index(), ops),
            );
            assert(shape.columns.drop_last() =~= Seq::<RegionColumn>::empty());
            assert(start_row(placed.columns, shape.columns) == first_free(placed.columns, key)) by {
                reveal_with_fuel(start_row, 2);
            }
            assert(forall|c: RegionColumn| shape.columns.contains(c) <==> c == key) by {
                assert(shape.columns[0] == key);
            }
            assert(self.assign_region(ops)->Ok_0.columns =~= place(placed.columns, shape));
        }
    }
}

} // verus!
