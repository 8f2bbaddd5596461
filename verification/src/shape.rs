//! The routine of a region as a list of steps, and the shape of a region:
//! the columns that its steps use and the rows that they span.

use vstd::prelude::*;
use crate::cell::{Cell, RegionIndex};
use crate::column::{Advice, Column, Fixed, Instance, RegionColumn, Selector};
use crate::value::{Assigned, Value};

verus! {

/// One step of the routine that assigns a region. Rows are given relative to
/// the start of the region.
#[derive(Clone, Copy, Debug)]
pub enum RegionOp<F> {
    /// Switch `selector` on at `offset`.
    EnableSelector { selector: Selector, offset: usize },
    /// Assign `to` to the advice cell at `column` and `offset`.
    AssignAdvice { column: Column<Advice>, offset: usize, to: Value<Assigned<F>> },
    /// Assign `constant` to the advice cell at `column` and `offset`, and
    /// constrain the cell to equal that constant.
    AssignAdviceFromConstant { column: Column<Advice>, offset: usize, constant: Assigned<F> },
    /// Assign the instance value at the absolute row `row` of `instance` to
    /// the advice cell at `advice` and `offset`, and constrain the two to be
    /// equal.
    AssignAdviceFromInstance {
        instance: Column<Instance>,
        row: usize,
        advice: Column<Advice>,
        offset: usize,
    },
    /// Assign `to` to the fixed cell at `column` and `offset`.
    AssignFixed { column: Column<Fixed>, offset: usize, to: Value<Assigned<F>> },
    /// Constrain `cell`, of this region or an earlier one, to equal `constant`.
    ConstrainConstant { cell: Cell, constant: Assigned<F> },
    /// Constrain two cells, of this region or earlier ones, to be equal.
    ConstrainEqual { left: Cell, right: Cell },
}

impl<F> RegionOp<F> {
    /// The column and the row offset that this step uses of its region, if it
    /// uses any: constraints between cells use none.
    pub open spec fn touches(self) -> Option<(RegionColumn, usize)> {
        match self {
            RegionOp::EnableSelector { selector, offset } => Some(
                (RegionColumn::Selector(selector), offset),
            ),
            RegionOp::AssignAdvice { column, offset, to } => Some(
                (RegionColumn::Column(column.spec_any()), offset),
            ),
            RegionOp::AssignAdviceFromConstant { column, offset, constant } => Some(
                (RegionColumn::Column(column.spec_any()), offset),
            ),
            RegionOp::AssignAdviceFromInstance { instance, row, advice, offset } => Some(
                (RegionColumn::Column(advice.spec_any()), offset),
            ),
            RegionOp::AssignFixed { column, offset, to } => Some(
                (RegionColumn::Column(column.spec_any()), offset),
            ),
            RegionOp::ConstrainConstant { cell, constant } => None,
            RegionOp::ConstrainEqual { left, right } => None,
        }
    }

    /// The column that this step uses of its region, if it uses one.
    pub open spec fn column(self) -> Option<RegionColumn> {
        match self.touches() {
            Some((column, offset)) => Some(column),
            None => None,
        }
    }

    /// The row offset that this step uses of its region, if it uses one.
    pub open spec fn offset(self) -> Option<usize> {
        match self.touches() {
            Some((column, offset)) => Some(offset),
            None => None,
        }
    }

    /// The cell that this step assigns in region `region_index`, if it
    /// assigns one.
    pub open spec fn cell(self, region_index: RegionIndex) -> Option<Cell> {
        match self {
            RegionOp::AssignAdvice { column, offset, to } => Some(
                Cell { region_index, row_offset: offset, column: column.spec_any() },
            ),
            RegionOp::AssignAdviceFromConstant { column, offset, constant } => Some(
                Cell { region_index, row_offset: offset, column: column.spec_any() },
            ),
            RegionOp::AssignAdviceFromInstance { instance, row, advice, offset } => Some(
                Cell { region_index, row_offset: offset, column: advice.spec_any() },
            ),
            RegionOp::AssignFixed { column, offset, to } => Some(
                Cell { region_index, row_offset: offset, column: column.spec_any() },
            ),
            _ => None,
        }
    }
}

impl<F: Copy> RegionOp<F> {
    /// The cell that this step assigns in region `region_index`, if it
    /// assigns one.
    pub fn assigned_cell(&self, region_index: RegionIndex) -> (cell: Option<Cell>)
        ensures
            cell == self.cell(region_index),
    {
        match self {
            RegionOp::AssignAdvice { column, offset, to } => Some(
                Cell { region_index, row_offset: *offset, column: column.any() },
            ),
            RegionOp::AssignAdviceFromConstant { column, offset, constant } => Some(
                Cell { region_index, row_offset: *offset, column: column.any() },
            ),
            RegionOp::AssignAdviceFromInstance { instance, row, advice, offset } => Some(
                Cell { region_index, row_offset: *offset, column: advice.any() },
            ),
            RegionOp::AssignFixed { column, offset, to } => Some(
                Cell { region_index, row_offset: *offset, column: column.any() },
            ),
            _ => None,
        }
    }
}

/// The shape of a region, as a mathematical value.
pub struct ShapeView {
    pub region_index: RegionIndex,
    /// The columns that the region uses, each once, in the order of their
    /// first use.
    pub columns: Seq<RegionColumn>,
    /// The number of rows that the region spans.
    pub row_count: nat,
}

impl ShapeView {
    /// No column is listed twice.
    pub open spec fn wf(self) -> bool {
        self.columns.no_duplicates()
    }

    /// The shape of a region that uses nothing.
    pub open spec fn empty(region_index: RegionIndex) -> ShapeView {
        ShapeView { region_index, columns: Seq::empty(), row_count: 0 }
    }

    /// The shape after the region uses `column` at `offset`.
    pub open spec fn touch(self, column: RegionColumn, offset: usize) -> ShapeView {
        ShapeView {
            region_index: self.region_index,
            columns: if self.columns.contains(column) {
                self.columns
            } else {
                self.columns.push(column)
            },
            row_count: if offset + 1 > self.row_count {
                (offset + 1) as nat
            } else {
                self.row_count
            },
        }
    }

    /// The shape after the region takes the step `op`.
    pub open spec fn apply<F>(self, op: RegionOp<F>) -> ShapeView {
        match op.touches() {
            Some((column, offset)) => self.touch(column, offset),
            None => self,
        }
    }

    /// The shape after the region takes the steps `ops`.
    pub open spec fn apply_all<F>(self, ops: Seq<RegionOp<F>>) -> ShapeView
        decreases ops.len(),
    {
        if ops.len() == 0 {
            self
        } else {
            self.apply_all(ops.drop_last()).apply(ops.last())
        }
    }

    /// The shape of the region with index `region_index` that takes the steps
    /// `ops`.
    pub open spec fn of<F>(region_index: RegionIndex, ops: Seq<RegionOp<F>>) -> ShapeView {
        ShapeView::empty(region_index).apply_all(ops)
    }

    /// Using a column at a row adds that column and covers that row, and
    /// keeps what the shape held.
    pub proof fn lemma_touch(self, column: RegionColumn, offset: usize)
        requires
            self.wf(),
        ensures
            self.touch(column, offset).wf(),
            self.touch(column, offset).region_index == self.region_index,
            self.touch(column, offset).columns.contains(column),
            offset < self.touch(column, offset).row_count,
            self.touch(column, offset).row_count >= self.row_count,
            forall|c: RegionColumn|
                self.columns.contains(c) ==> self.touch(column, offset).columns.contains(c),
            forall|c: RegionColumn| #[trigger]
                self.touch(column, offset).columns.contains(c) ==> self.columns.contains(c) || c
                    == column,
    {
        let after = self.touch(column, offset);
        if !self.columns.contains(column) {
            assert(after.columns[self.columns.len() as int] == column);
            assert forall|c: RegionColumn| self.columns.contains(c) implies after.columns.contains(
                c,
            ) by {
                let i = choose|i: int| 0 <= i < self.columns.len() && self.columns[i] == c;
                assert(after.columns[i] == c);
            }
            assert forall|c: RegionColumn| #[trigger]
                after.columns.contains(c) implies self.columns.contains(c) || c == column by {
                let i = choose|i: int| 0 <= i < after.columns.len() && after.columns[i] == c;
                if i < self.columns.len() {
                    assert(self.columns[i] == c);
                }
            }
        }
    }

    /// Taking steps keeps a shape well formed and its region, and only adds
    /// columns and rows.
    pub proof fn lemma_apply_all<F>(self, ops: Seq<RegionOp<F>>)
        requires
            self.wf(),
        ensures
            self.apply_all(ops).wf(),
            self.apply_all(ops).region_index == self.region_index,
            self.apply_all(ops).row_count >= self.row_count,
            forall|c: RegionColumn|
                self.columns.contains(c) ==> self.apply_all(ops).columns.contains(c),
        decreases ops.len(),
    {
        if ops.len() > 0 {
            self.lemma_apply_all(ops.drop_last());
            let before = self.apply_all(ops.drop_last());
            if let Some((column, offset)) = ops.last().touches() {
                before.lemma_touch(column, offset);
            }
        }
    }

    /// A shape covers every step that led to it: the column that a step uses
    /// is one of the shape's columns, and the row that it uses lies below the
    /// shape's row count. A shape holds nothing else: each of its columns is
    /// used by a step, or was there before, and its row count is one more
    /// than a row that a step uses, or what it was before.
    pub proof fn lemma_covers<F>(self, ops: Seq<RegionOp<F>>)
        requires
            self.wf(),
        ensures
            forall|i: int|
                0 <= i < ops.len() ==> (#[trigger] ops[i].touches() matches Some((column, offset))
                    ==> self.apply_all(ops).columns.contains(column) && offset
                    < self.apply_all(ops).row_count),
            forall|c: RegionColumn| #[trigger]
                self.apply_all(ops).columns.contains(c) ==> self.columns.contains(c) || exists|
                    i: int,
                |
                    0 <= i < ops.len() && (#[trigger] ops[i].touches() matches Some((column, offset))
                        && column == c),
            self.apply_all(ops).row_count == self.row_count || exists|i: int|
                0 <= i < ops.len() && (#[trigger] ops[i].offset() matches Some(offset) && offset + 1
                    == self.apply_all(ops).row_count),
        decreases ops.len(),
    {
        if ops.len() > 0 {
            let front = ops.drop_last();
            self.lemma_covers(front);
            assert(self.apply_all(ops).row_count == self.row_count || exists|i: int|
                0 <= i < ops.len() && (#[trigger] ops[i].offset() matches Some(offset) && offset + 1
                    == self.apply_all(ops).row_count)) by {
                let before = self.apply_all(front);
                let after = self.apply_all(ops);
                if after.row_count != before.row_count {
                    assert(ops[ops.len() - 1].offset() matches Some(offset) && offset + 1
                        == after.row_count);
                } else if before.row_count != self.row_count {
                    let i = choose|i: int|
                        0 <= i < front.len() && (#[trigger] front[i].offset() matches Some(offset)
                            && offset + 1 == before.row_count);
                    assert(ops[i] == front[i]);
                }
            }
            self.lemma_apply_all(front);
            let before = self.apply_all(front);
            let after = before.apply(ops.last());
            if let Some((column, offset)) = ops.last().touches() {
                before.lemma_touch(column, offset);
            }
            assert forall|i: int| 0 <= i < ops.len() implies (#[trigger] ops[i].touches() matches Some(
                (column, offset),
            ) ==> after.columns.contains(column) && offset < after.row_count) by {
                if i < ops.len() - 1 {
                    assert(front[i] == ops[i]);
                }
            }
            assert forall|c: RegionColumn| #[trigger] after.columns.contains(c) implies self.columns.contains(
                c,
            ) || exists|i: int|
                0 <= i < ops.len() && (#[trigger] ops[i].touches() matches Some((column, offset))
                    && column == c) by {
                if before.columns.contains(c) {
                    if !self.columns.contains(c) {
                        let i = choose|i: int|
                            0 <= i < front.len() && (#[trigger] front[i].touches() matches Some(
                                (column, offset),
                            ) && column == c);
                        assert(ops[i] == front[i]);
                    }
                } else {
                    assert(ops[ops.len() - 1].touches() matches Some((column, offset)) && column
                        == c);
                }
            }
        }
    }
}

/// The shape of a region: the columns that it uses and the number of rows
/// that it spans. It is measured by running the region's routine without
/// writing anything.
#[derive(Clone, Debug)]
pub struct RegionShape {
    region_index: RegionIndex,
    columns: Vec<RegionColumn>,
    row_count: usize,
}

impl View for RegionShape {
    type V = ShapeView;

    closed spec fn view(&self) -> ShapeView {
        ShapeView {
            region_index: self.region_index,
            columns: self.columns@,
            row_count: self.row_count as nat,
        }
    }
}

impl RegionShape {
    /// The shape of a region that uses nothing yet.
    pub fn new(region_index: RegionIndex) -> (shape: Self)
        ensures
            shape@ == ShapeView::empty(region_index),
            shape@.wf(),
    {
        RegionShape { region_index, columns: Vec::new(), row_count: 0 }
    }

    /// The index of the region.
    pub fn region_index(&self) -> (i: RegionIndex)
        ensures
            i == self@.region_index,
    {
        self.region_index
    }

    /// The columns that the region uses, each once.
    pub fn columns(&self) -> (columns: &Vec<RegionColumn>)
        ensures
            columns@ == self@.columns,
    {
        &self.columns
    }

    /// The number of rows that the region spans.
    pub fn row_count(&self) -> (n: usize)
        ensures
            n == self@.row_count,
    {
        self.row_count
    }

    /// Whether the region uses `column` already.
    fn uses(&self, column: &RegionColumn) -> (b: bool)
        ensures
            b == self@.columns.contains(*column),
    {
        let key = column.key();
        let mut i: usize = 0;
        while i < self.columns.len()
            invariant
                i <= self.columns@.len(),
                key == column.spec_key(),
                forall|j: int| 0 <= j < i ==> self.columns@[j] != *column,
            decreases self.columns@.len() - i,
        {
            if self.columns[i].key() == key {
                proof {
                    RegionColumn::lemma_key_injective(self.columns@[i as int], *column);
                }
                return true;
            }
            i = i + 1;
        }
        false
    }

    /// Records that the region uses `column` at the row `offset`.
    fn touch(&mut self, column: RegionColumn, offset: usize)
        requires
            old(self)@.wf(),
            offset < usize::MAX,
        ensures
            final(self)@ == old(self)@.touch(column, offset),
            final(self)@.wf(),
    {
        if !self.uses(&column) {
            self.columns.push(column);
        }
        if offset + 1 > self.row_count {
            self.row_count = offset + 1;
        }
    }

    /// Records what the step `op` uses. The values that the step carries are
    /// not looked at.
    pub fn apply<F: Copy>(&mut self, op: &RegionOp<F>)
        requires
            old(self)@.wf(),
            op.touches() matches Some((column, offset)) ==> offset < usize::MAX,
        ensures
            final(self)@ == old(self)@.apply(*op),
            final(self)@.wf(),
    {
        match op {
            RegionOp::EnableSelector { selector, offset } => {
                self.touch(RegionColumn::Selector(*selector), *offset);
            },
            RegionOp::AssignAdvice { column, offset, to } => {
                self.touch(RegionColumn::Column(column.any()), *offset);
            },
            RegionOp::AssignAdviceFromConstant { column, offset, constant } => {
                self.touch(RegionColumn::Column(column.any()), *offset);
            },
            RegionOp::AssignAdviceFromInstance { instance, row, advice, offset } => {
                self.touch(RegionColumn::Column(advice.any()), *offset);
            },
            RegionOp::AssignFixed { column, offset, to } => {
                self.touch(RegionColumn::Column(column.any()), *offset);
            },
            RegionOp::ConstrainConstant { cell, constant } => {},
            RegionOp::ConstrainEqual { left, right } => {},
        }
    }

    /// Whether the rows that `ops` use can be counted: none is the largest
    /// number that the machine holds.
    pub open spec fn countable<F>(ops: Seq<RegionOp<F>>) -> bool {
        forall|i: int|
            0 <= i < ops.len() ==> (#[trigger] ops[i].touches() matches Some((column, offset))
                ==> offset < usize::MAX)
    }

    /// Measures the region with index `region_index` whose routine takes the
    /// steps `ops`: the columns are those that a step uses, and the row count
    /// is one more than the largest row that a step uses, or zero.
    pub fn probe<F: Copy>(region_index: RegionIndex, ops: &[RegionOp<F>]) -> (shape: Self)
        requires
            Self::countable(ops@),
        ensures
            shape@ == ShapeView::of(region_index, ops@),
            shape@.wf(),
            shape@.region_index == region_index,
            forall|c: RegionColumn| #[trigger]
                shape@.columns.contains(c) <==> exists|i: int|
                    0 <= i < ops@.len() && #[trigger] ops@[i].column() == Some(c),
            forall|i: int|
                0 <= i < ops@.len() ==> (#[trigger] ops@[i].offset() matches Some(offset)
                    ==> offset < shape@.row_count),
            shape@.row_count == 0 || exists|i: int|
                0 <= i < ops@.len() && #[trigger] ops@[i].offset() == Some(
                    (shape@.row_count - 1) as usize,
                ),
    {
        proof {
            let begun = ShapeView::empty(region_index);
            begun.lemma_covers(ops@);
            begun.lemma_apply_all(ops@);
            let measured = begun.apply_all(ops@);
            assert forall|c: RegionColumn| #[trigger] measured.columns.contains(c) <==> exists|
                i: int,
            |
                0 <= i < ops@.len() && #[trigger] ops@[i].column() == Some(c) by {
                if measured.columns.contains(c) {
                    let i = choose|i: int|
                        0 <= i < ops@.len() && (#[trigger] ops@[i].touches() matches Some(
                            (column, offset),
                        ) && column == c);
                    assert(ops@[i].column() == Some(c));
                }
                if exists|i: int| 0 <= i < ops@.len() && #[trigger] ops@[i].column() == Some(c) {
                    let i = choose|i: int|
                        0 <= i < ops@.len() && #[trigger] ops@[i].column() == Some(c);
                    let _ = ops@[i].touches();
                }
            }
            assert forall|i: int| 0 <= i < ops@.len() implies (#[trigger] ops@[i].offset() matches Some(
                offset,
            ) ==> offset < measured.row_count) by {
                let _ = ops@[i].touches();
            }
            if measured.row_count != 0 {
                let i = choose|i: int|
                    0 <= i < ops@.len() && (#[trigger] ops@[i].offset() matches Some(offset)
                        && offset + 1 == measured.row_count);
                assert(ops@[i].offset() == Some((measured.row_count - 1) as usize));
            }
        }
        let mut shape = RegionShape::new(region_index);
        let mut i: usize = 0;
        assert(ops@.subrange(0, 0) =~= Seq::empty());
        while i < ops.len()
            invariant
                Self::countable(ops@),
                i <= ops@.len(),
                shape@.wf(),
                shape@ == ShapeView::of(region_index, ops@.subrange(0, i as int)),
            decreases ops@.len() - i,
        {
            assert(ops@[i as int].touches() matches Some((column, offset)) ==> offset < usize::MAX);
            shape.apply(&ops[i]);
            i = i + 1;
            assert(ops@.subrange(0, i as int).drop_last() =~= ops@.subrange(0, i - 1));
        }
        assert(ops@.subrange(0, i as int) =~= ops@);
        shape
    }
}

} // verus!
