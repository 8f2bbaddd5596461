//! Lookup tables: fixed columns that are assigned once, from row 0 on, and
//! sealed.

use vstd::prelude::*;
use std::collections::HashMap;
use crate::assembly::{Assembly, AssemblyView};
use crate::column::TableColumn;
use crate::error::Error;
use crate::value::{Assigned, Value};

verus! {

broadcast use vstd::std_specs::hash::group_hash_axioms;

/// The default value to fill a table column with.
///
/// - The outer `Option` tracks whether the value in row 0 of the table column has been
///   assigned yet. This will always be `Some` once a valid table has been completely
///   assigned.
/// - The inner `Value` tracks whether the underlying assembly is evaluating
///   witnesses or not.
pub type DefaultTableValue<F> = Option<Value<Assigned<F>>>;

/// One cell of a lookup table: the value `to` for row `offset` of `column`.
/// Tables start at row 0 of the grid.
#[derive(Clone, Copy, Debug)]
pub struct TableCell<F> {
    pub column: TableColumn,
    pub offset: usize,
    pub to: Value<Assigned<F>>,
}

/// What is known of one column of a table while the table is assigned, as a
/// mathematical value.
pub struct TableEntryView<F> {
    pub column: TableColumn,
    /// The value of row 0, once it is assigned.
    pub default: DefaultTableValue<F>,
    /// For each row up to the last one assigned, whether it is assigned.
    pub assigned: Seq<bool>,
}

impl<F> TableEntryView<F> {
    /// A column has an entry once a row of it is assigned, and its default
    /// is the value of row 0.
    pub open spec fn wf(self) -> bool {
        &&& self.assigned.len() > 0
        &&& self.default is Some <==> self.assigned[0]
    }

    /// Whether every row up to the last one assigned is assigned.
    pub open spec fn complete(self) -> bool {
        forall|i: int| 0 <= i < self.assigned.len() ==> self.assigned[i]
    }
}

/// The rows `assigned` after the row `offset` is assigned too.
pub open spec fn mark(assigned: Seq<bool>, offset: usize) -> Seq<bool> {
    Seq::new(
        if assigned.len() > offset {
            assigned.len()
        } else {
            (offset + 1) as nat
        },
        |i: int| i == offset || (i < assigned.len() && assigned[i]),
    )
}

/// The position of the entry of `column` among `entries`, or the number of
/// entries where it has none.
pub open spec fn position<F>(entries: Seq<TableEntryView<F>>, column: TableColumn) -> int
    decreases entries.len(),
{
    if entries.len() == 0 {
        0
    } else if entries[0].column == column {
        0
    } else {
        1 + position(entries.drop_first(), column)
    }
}

/// The position of a column lies within the entries exactly when the column
/// has an entry, and is then the first position that holds the column.
pub proof fn lemma_position<F>(entries: Seq<TableEntryView<F>>, column: TableColumn)
    ensures
        0 <= position(entries, column) <= entries.len(),
        position(entries, column) < entries.len() ==> entries[position(entries, column)].column
            == column,
        forall|i: int| 0 <= i < position(entries, column) ==> entries[i].column != column,
    decreases entries.len(),
{
    if entries.len() > 0 && entries[0].column != column {
        let rest = entries.drop_first();
        lemma_position(rest, column);
        assert forall|i: int| 0 <= i < position(entries, column) implies entries[i].column
            != column by {
            if i > 0 {
                assert(rest[i - 1] == entries[i]);
            }
        }
    }
}

/// The table that is being assigned, as a mathematical value.
pub struct TableView<F> {
    pub cs: AssemblyView<F>,
    /// The columns of the table, in the order in which they were first
    /// assigned.
    pub entries: Seq<TableEntryView<F>>,
}

impl<F> TableView<F> {
    /// A table of which nothing is assigned yet.
    pub open spec fn begin(cs: AssemblyView<F>) -> Self {
        TableView { cs, entries: Seq::empty() }
    }

    /// The assembly and every entry are well formed, and no column has two
    /// entries.
    pub open spec fn wf(self) -> bool {
        &&& self.cs.wf()
        &&& forall|i: int| 0 <= i < self.entries.len() ==> (#[trigger] self.entries[i]).wf()
        &&& forall|i: int, j: int|
            0 <= i < j < self.entries.len() ==> (#[trigger] self.entries[i]).column != (
            #[trigger] self.entries[j]).column
    }

    /// Assigning `to` to row `offset` of the table column `column`, where
    /// `used` are the columns of the tables that are complete.
    pub open spec fn assign_cell(
        self,
        used: Seq<TableColumn>,
        column: TableColumn,
        offset: usize,
        to: Value<Assigned<F>>,
    ) -> Result<Self, Error> {
        if used.contains(column) {
            Err(Error::Synthesis)
        } else {
            match self.cs.assign_fixed(column.inner, offset, to) {
                Err(e) => Err(e),
                Ok(cs) => {
                    let at = position(self.entries, column);
                    if at < self.entries.len() {
                        let entry = self.entries[at];
                        if offset == 0 && entry.default is Some {
                            Err(Error::Synthesis)
                        } else {
                            Ok(
                                TableView {
                                    cs,
                                    entries: self.entries.update(
                                        at,
                                        TableEntryView {
                                            column,
                                            default: if offset == 0 {
                                                Some(to)
                                            } else {
                                                entry.default
                                            },
                                            assigned: mark(entry.assigned, offset),
                                        },
                                    ),
                                },
                            )
                        }
                    } else {
                        Ok(
                            TableView {
                                cs,
                                entries: self.entries.push(
                                    TableEntryView {
                                        column,
                                        default: if offset == 0 {
                                            Some(to)
                                        } else {
                                            None
                                        },
                                        assigned: mark(Seq::empty(), offset),
                                    },
                                ),
                            },
                        )
                    }
                },
            }
        }
    }

    /// Assigning the cells `cells` in their order, up to the first that
    /// fails.
    pub open spec fn assign_cells(self, used: Seq<TableColumn>, cells: Seq<TableCell<F>>) -> Result<
        Self,
        Error,
    >
        decreases cells.len(),
    {
        if cells.len() == 0 {
            Ok(self)
        } else {
            match self.assign_cells(used, cells.drop_last()) {
                Err(e) => Err(e),
                Ok(before) => before.assign_cell(
                    used,
                    cells.last().column,
                    cells.last().offset,
                    cells.last().to,
                ),
            }
        }
    }

    /// What the table holds once `to` was to be assigned to row `offset` of
    /// `column`, whether that succeeded or not. Where the column belongs to
    /// a table that is complete, or the assembly refuses the write, the
    /// table is as it was. Where row 0 is assigned a second time, the
    /// assembly holds the new value, and the entries are as they were: the
    /// default is the value that was assigned first.
    pub open spec fn after_cell(
        self,
        used: Seq<TableColumn>,
        column: TableColumn,
        offset: usize,
        to: Value<Assigned<F>>,
    ) -> Self {
        match self.assign_cell(used, column, offset, to) {
            Ok(after) => after,
            Err(e) => if used.contains(column) {
                self
            } else {
                match self.cs.assign_fixed(column.inner, offset, to) {
                    Ok(cs) => TableView { cs, entries: self.entries },
                    Err(e) => self,
                }
            },
        }
    }

    /// What the table holds once the cells `cells` were to be assigned:
    /// what the cells before the first failing one have left, and what the
    /// failing one has.
    pub open spec fn after_cells(self, used: Seq<TableColumn>, cells: Seq<TableCell<F>>) -> Self
        decreases cells.len(),
    {
        if cells.len() == 0 {
            self
        } else {
            match self.assign_cells(used, cells.drop_last()) {
                Err(e) => self.after_cells(used, cells.drop_last()),
                Ok(before) => before.after_cell(
                    used,
                    cells.last().column,
                    cells.last().offset,
                    cells.last().to,
                ),
            }
        }
    }

    /// The length that all columns of the table share, where there is one:
    /// the table has a column, every column is assigned in every row up to
    /// its last, and all columns have the same number of rows.
    pub open spec fn common_length(self) -> Option<nat> {
        if self.entries.len() > 0 && forall|i: int|
            0 <= i < self.entries.len() ==> (#[trigger] self.entries[i]).complete()
                && self.entries[i].assigned.len() == self.entries[0].assigned.len() {
            Some(self.entries[0].assigned.len())
        } else {
            None
        }
    }

    /// Assigning a cell keeps the table well formed, and the frame of the
    /// assembly.
    pub proof fn lemma_assign_cell(
        self,
        used: Seq<TableColumn>,
        column: TableColumn,
        offset: usize,
        to: Value<Assigned<F>>,
    )
        requires
            self.wf(),
        ensures
            self.assign_cell(used, column, offset, to) matches Ok(after) ==> after.wf()
                && after.cs.same_frame(self.cs) && after.entries.len() >= self.entries.len(),
    {
        lemma_position(self.entries, column);
        if let Ok(after) = self.assign_cell(used, column, offset, to) {
            let at = position(self.entries, column);
            assert(to.inner is Some);
            assert forall|i: int| 0 <= i < after.entries.len() implies (
            #[trigger] after.entries[i]).wf() by {
                if i != at {
                    assert(after.entries[i] == self.entries[i]);
                }
            }
        }
    }
}

/// One column of a table, while the table is assigned.
#[derive(Debug)]
pub struct TableEntry<F> {
    pub column: TableColumn,
    pub default: DefaultTableValue<F>,
    pub assigned: Vec<bool>,
}

impl<F> View for TableEntry<F> {
    type V = TableEntryView<F>;

    open spec fn view(&self) -> TableEntryView<F> {
        TableEntryView { column: self.column, default: self.default, assigned: self.assigned@ }
    }
}

/// What each of `entries` holds.
pub open spec fn entry_views<F>(entries: Seq<TableEntry<F>>) -> Seq<TableEntryView<F>> {
    Seq::new(entries.len(), |i: int| entries[i]@)
}

/// The context in which the routine of a lookup table assigns its cells.
/// It refuses the columns of tables that are complete, and keeps, for each
/// column of this table, the value of row 0 and the rows that are assigned.
/// The columns are kept in the order in which they were first assigned, so
/// that they are sealed and filled in that order; a map finds the entry of
/// a column.
#[derive(Debug)]
pub struct SimpleTableLayouter<'r, 'a, F> {
    pub cs: &'a mut Assembly<F>,
    pub used_columns: &'r Vec<TableColumn>,
    /// For each column of the table, in the order of first assignment, the
    /// default value and the rows that are assigned.
    pub default_and_assigned: Vec<TableEntry<F>>,
    /// Maps the index of each column of the table to the position of its
    /// entry in `default_and_assigned`.
    pub positions: HashMap<usize, usize>,
}

impl<'r, 'a, F> View for SimpleTableLayouter<'r, 'a, F> {
    type V = TableView<F>;

    open spec fn view(&self) -> TableView<F> {
        TableView { cs: (*self.cs)@, entries: entry_views(self.default_and_assigned@) }
    }
}

/// Whether `column` is among `columns`.
pub fn contains_column(columns: &Vec<TableColumn>, column: &TableColumn) -> (b: bool)
    ensures
        b == columns@.contains(*column),
{
    let mut i: usize = 0;
    while i < columns.len()
        invariant
            i <= columns@.len(),
            forall|j: int| 0 <= j < i ==> columns@[j] != *column,
        decreases columns@.len() - i,
    {
        if columns[i].inner.index == column.inner.index {
            proof {
                TableColumn::lemma_same_index(columns@[i as int], *column);
            }
            return true;
        }
        i = i + 1;
    }
    false
}

impl<'r, 'a, F: Copy> SimpleTableLayouter<'r, 'a, F> {
    /// The map of positions knows the columns that have an entry, and no
    /// other, and gives for each the position of its entry.
    pub open spec fn indexed(&self) -> bool {
        &&& forall|i: int|
            0 <= i < self.default_and_assigned@.len() ==> self.positions@.contains_key(
                (#[trigger] self.default_and_assigned@[i]).column.inner.index,
            ) && self.positions@[self.default_and_assigned@[i].column.inner.index] == i
        &&& forall|k: usize| #[trigger]
            self.positions@.contains_key(k) ==> self.positions@[k]
                < self.default_and_assigned@.len()
                && self.default_and_assigned@[self.positions@[k] as int].column.inner.index == k
    }

    /// The context of a table of which nothing is assigned yet, where
    /// `used_columns` are the columns of the tables that are complete.
    pub fn new(cs: &'a mut Assembly<F>, used_columns: &'r Vec<TableColumn>) -> (table: Self)
        ensures
            *table.cs == *old(cs),
            *final(cs) == *final(table.cs),
            table.used_columns == used_columns,
            table@ == TableView::begin(old(cs)@),
            table.indexed(),
    {
        let table = SimpleTableLayouter {
            cs,
            used_columns,
            default_and_assigned: Vec::new(),
            positions: HashMap::new(),
        };
        assert(table@.entries =~= Seq::empty());
        table
    }

    /// The position of the entry of `column`, or the number of entries where
    /// it has none.
    fn position(&self, column: &TableColumn) -> (at: usize)
        requires
            self.indexed(),
            self@.wf(),
        ensures
            at == position(self@.entries, *column),
    {
        let ghost entries = self@.entries;
        proof {
            lemma_position(entries, *column);
        }
        let index = column.inner.index;
        match self.positions.get(&index) {
            Some(at) => {
                proof {
                    let found = entries[*at as int];
                    assert(found == self.default_and_assigned@[*at as int]@);
                    TableColumn::lemma_same_index(found.column, *column);
                    let first = position(entries, *column);
                    if first != *at {
                        if first < entries.len() {
                            assert(entries[first].column == entries[*at as int].column);
                        } else {
                            assert(entries[*at as int].column != *column);
                        }
                    }
                }
                *at
            },
            None => {
                proof {
                    let first = position(entries, *column);
                    if first < entries.len() {
                        assert(entries[first] == self.default_and_assigned@[first]@);
                        assert(self.positions@.contains_key(
                            self.default_and_assigned@[first].column.inner.index,
                        ));
                    }
                }
                self.default_and_assigned.len()
            },
        }
    }

    /// Assigns `to` to row `offset` of the table column `column`.
    ///
    /// Fails with `Synthesis` when the column belongs to a table that is
    /// complete, or when row 0 of the column is assigned a second time, and
    /// with the error of the assembly when the write fails. A cell that
    /// fails marks no row and records no default; the second value for row 0
    /// reaches the assembly, and nothing else.
    pub fn assign_cell(&mut self, column: TableColumn, offset: usize, to: Value<Assigned<F>>) -> (r:
        Result<(), Error>)
        requires
            old(self)@.wf(),
            old(self).indexed(),
        ensures
            final(self)@.cs.wf(),
            final(self)@.cs.same_frame(old(self)@.cs),
            *final(final(self).cs) == *final(old(self).cs),
            final(self).used_columns == old(self).used_columns,
            final(self).indexed(),
            match old(self)@.assign_cell(old(self).used_columns@, column, offset, to) {
                Ok(after) => r is Ok && final(self)@ == after && after.wf(),
                Err(e) => r == Err::<(), Error>(e),
            },
            final(self)@ == old(self)@.after_cell(old(self).used_columns@, column, offset, to),
    {
        if contains_column(self.used_columns, &column) {
            return Err(Error::Synthesis);
        }
        let ghost before = self@;
        proof {
            before.lemma_assign_cell(self.used_columns@, column, offset, to);
            lemma_position(before.entries, column);
        }
        self.cs.assign_fixed(column.inner(), offset, to)?;
        assert(offset < usize::MAX);
        let at = self.position(&column);
        if at < self.default_and_assigned.len() {
            if offset == 0 && self.default_and_assigned[at].default.is_some() {
                return Err(Error::Synthesis);
            }
            if offset == 0 {
                self.default_and_assigned[at].default = Some(to);
            }
            let ghost rows = before.entries[at as int].assigned;
            while self.default_and_assigned[at].assigned.len() <= offset
                invariant
                    at < self.default_and_assigned@.len(),
                    self.default_and_assigned@.len() == before.entries.len(),
                    offset < usize::MAX,
                    rows == before.entries[at as int].assigned,
                    self.positions@ == old(self).positions@,
                    self.cs@ == old(self).cs@.assign_fixed(column.inner, offset, to)->Ok_0,
                    *final(self.cs) == *final(old(self).cs),
                    self.used_columns == old(self).used_columns,
                    forall|i: int|
                        0 <= i < before.entries.len() && i != at ==> (
                        #[trigger] self.default_and_assigned@[i])@ == before.entries[i],
                    self.default_and_assigned@[at as int].column == before.entries[at as int].column,
                    self.default_and_assigned@[at as int].default == (if offset == 0 {
                        Some(to)
                    } else {
                        before.entries[at as int].default
                    }),
                    self.default_and_assigned@[at as int].assigned@.len() >= rows.len(),
                    self.default_and_assigned@[at as int].assigned@.len() <= offset + 1
                        || self.default_and_assigned@[at as int].assigned@.len() == rows.len(),
                    self.default_and_assigned@[at as int].assigned@ == Seq::new(
                        self.default_and_assigned@[at as int].assigned@.len(),
                        |i: int| i < rows.len() && rows[i],
                    ),
                decreases offset + 1 - self.default_and_assigned@[at as int].assigned@.len(),
            {
                let ghost length = self.default_and_assigned@[at as int].assigned@.len();
                self.default_and_assigned[at].assigned.push(false);
                assert(self.default_and_assigned@[at as int].assigned@ =~= Seq::new(
                    length + 1,
                    |i: int| i < rows.len() && rows[i],
                ));
            }
            self.default_and_assigned[at].assigned[offset] = true;
            assert(self.default_and_assigned@[at as int].assigned@ =~= mark(rows, offset));
            assert(self.indexed()) by {
                assert forall|i: int| 0 <= i < self.default_and_assigned@.len() implies (
                #[trigger] self.default_and_assigned@[i]).column == old(
                    self,
                ).default_and_assigned@[i].column by {
                    assert(old(self).default_and_assigned@[i]@ == before.entries[i]);
                    if i != at {
                        assert(self.default_and_assigned@[i]@ == before.entries[i]);
                    }
                }
            }
            assert(self@.entries =~= before.entries.update(
                at as int,
                TableEntryView {
                    column,
                    default: if offset == 0 {
                        Some(to)
                    } else {
                        before.entries[at as int].default
                    },
                    assigned: mark(rows, offset),
                },
            ));
        } else {
            let mut assigned: Vec<bool> = Vec::new();
            while assigned.len() < offset
                invariant
                    assigned@.len() <= offset,
                    assigned@ == Seq::new(assigned@.len(), |i: int| false),
                decreases offset - assigned@.len(),
            {
                let ghost length = assigned@.len();
                assigned.push(false);
                assert(assigned@ =~= Seq::new(length + 1, |i: int| false));
            }
            assigned.push(true);
            assert(assigned@ =~= mark(Seq::empty(), offset));
            let default: DefaultTableValue<F> = if offset == 0 {
                Some(to)
            } else {
                None
            };
            self.default_and_assigned.push(TableEntry { column, default, assigned });
            self.positions.insert(column.inner.index, at);
            assert(self.indexed()) by {
                assert forall|i: int| 0 <= i < at implies old(self).default_and_assigned@[i]
                    == #[trigger] self.default_and_assigned@[i] && self.default_and_assigned@[i].column.inner.index
                    != column.inner.index by {
                    assert(old(self).default_and_assigned@[i]@ == before.entries[i]);
                    if before.entries[i].column.inner.index == column.inner.index {
                        TableColumn::lemma_same_index(before.entries[i].column, column);
                    }
                }
            }
            assert(self@.entries =~= before.entries.push(
                TableEntryView {
                    column,
                    default: if offset == 0 {
                        Some(to)
                    } else {
                        None
                    },
                    assigned: mark(Seq::empty(), offset),
                },
            ));
        }
        Ok(())
    }

    /// Assigns the cells `cells` in their order, and stops at the first that
    /// fails: the cells before it stay assigned.
    pub fn assign_cells(&mut self, cells: &[TableCell<F>]) -> (r: Result<(), Error>)
        requires
            old(self)@.wf(),
            old(self).indexed(),
        ensures
            final(self).indexed(),
            final(self)@.cs.wf(),
            final(self)@.cs.same_frame(old(self)@.cs),
            *final(final(self).cs) == *final(old(self).cs),
            final(self).used_columns == old(self).used_columns,
            match old(self)@.assign_cells(old(self).used_columns@, cells@) {
                Ok(after) => r is Ok && final(self)@ == after && after.wf(),
                Err(e) => r == Err::<(), Error>(e),
            },
            final(self)@ == old(self)@.after_cells(old(self).used_columns@, cells@),
    {
        let mut i: usize = 0;
        assert(cells@.subrange(0, 0) =~= Seq::empty());
        while i < cells.len()
            invariant
                i <= cells@.len(),
                self@.wf(),
                self.indexed(),
                self@.cs.same_frame(old(self)@.cs),
                *final(self.cs) == *final(old(self).cs),
                self.used_columns == old(self).used_columns,
                old(self)@.assign_cells(self.used_columns@, cells@.subrange(0, i as int))
                    == Ok::<TableView<F>, Error>(self@),
            decreases cells@.len() - i,
        {
            let cell = &cells[i];
            let step = self.assign_cell(cell.column, cell.offset, cell.to);
            assert(cells@.subrange(0, i + 1).drop_last() =~= cells@.subrange(0, i as int));
            if let Err(e) = step {
                proof {
                    lemma_assign_cells_stops(old(self)@, self.used_columns@, cells@, i + 1);
                }
                return Err(e);
            }
            i = i + 1;
        }
        assert(cells@.subrange(0, i as int) =~= cells@);
        Ok(())
    }
}

/// Once a cell has failed, the cells after it are not assigned: the error
/// of a table is the error of its first failing prefix.
pub proof fn lemma_assign_cells_stops<F>(
    table: TableView<F>,
    used: Seq<TableColumn>,
    cells: Seq<TableCell<F>>,
    n: int,
)
    requires
        0 <= n <= cells.len(),
        table.assign_cells(used, cells.subrange(0, n)) is Err,
    ensures
        table.assign_cells(used, cells) == table.assign_cells(used, cells.subrange(0, n)),
        table.after_cells(used, cells) == table.after_cells(used, cells.subrange(0, n)),
    decreases cells.len() - n,
{
    if n < cells.len() {
        assert(cells.subrange(0, n + 1).drop_last() =~= cells.subrange(0, n));
        lemma_assign_cells_stops(table, used, cells, n + 1);
    } else {
        assert(cells.subrange(0, n) =~= cells);
    }
}

impl<F> TableView<F> {
    /// Whether row 0 of `column` is assigned.
    pub open spec fn has_default(self, column: TableColumn) -> bool {
        position(self.entries, column) < self.entries.len() && self.entries[position(
            self.entries,
            column,
        )].default is Some
    }

    /// Whether a row of `column` is assigned.
    pub open spec fn has_entry(self, column: TableColumn) -> bool {
        position(self.entries, column) < self.entries.len()
    }

    /// Row 0 of a column cannot be assigned twice.
    pub proof fn lemma_row_zero_twice_fails(
        self,
        used: Seq<TableColumn>,
        column: TableColumn,
        to: Value<Assigned<F>>,
    )
        requires
            self.has_default(column),
        ensures
            self.assign_cell(used, column, 0, to) is Err,
    {
    }

    /// A cell that is assigned gives its column an entry, and a cell of row
    /// 0 gives it a default. Entries and defaults stay.
    pub proof fn lemma_assign_cell_keeps(
        self,
        used: Seq<TableColumn>,
        column: TableColumn,
        offset: usize,
        to: Value<Assigned<F>>,
        other: TableColumn,
    )
        requires
            self.wf(),
            self.assign_cell(used, column, offset, to) is Ok,
        ensures
            ({
                let after = self.assign_cell(used, column, offset, to)->Ok_0;
                &&& after.has_entry(column)
                &&& offset == 0 ==> after.has_default(column)
                &&& self.has_entry(other) ==> after.has_entry(other)
                &&& self.has_default(other) ==> after.has_default(other)
                &&& after.has_entry(other) ==> self.has_entry(other) || other == column
            }),
    {
        let after = self.assign_cell(used, column, offset, to)->Ok_0;
        let at = position(self.entries, column);
        lemma_position(self.entries, column);
        lemma_position(self.entries, other);
        lemma_position(after.entries, column);
        lemma_position(after.entries, other);
        self.lemma_assign_cell(used, column, offset, to);
        assert(after.entries[at].column == column);
        if position(self.entries, other) < self.entries.len() {
            let p = position(self.entries, other);
            assert(after.entries[p].column == other);
            assert forall|i: int| 0 <= i < p implies after.entries[i].column != other by {
                assert(after.entries[i].column == self.entries[i].column);
            }
        }
        if position(after.entries, other) < after.entries.len() && other != column {
            let p = position(after.entries, other);
            assert(p < self.entries.len());
            assert(self.entries[p].column == other);
        }
    }

    /// Where cells are assigned, so are the first of them.
    pub proof fn lemma_assign_cells_prefix(
        self,
        used: Seq<TableColumn>,
        cells: Seq<TableCell<F>>,
        n: int,
    )
        requires
            0 <= n <= cells.len(),
            self.assign_cells(used, cells) is Ok,
        ensures
            self.assign_cells(used, cells.subrange(0, n)) is Ok,
    {
        if self.assign_cells(used, cells.subrange(0, n)) is Err {
            lemma_assign_cells_stops(self, used, cells, n);
        }
    }

    /// Cells that are assigned keep the table well formed and the frame of
    /// the assembly, and give each of their columns, and no other, an
    /// entry.
    pub proof fn lemma_assign_cells(self, used: Seq<TableColumn>, cells: Seq<TableCell<F>>)
        requires
            self.wf(),
            self.assign_cells(used, cells) is Ok,
        ensures
            ({
                let after = self.assign_cells(used, cells)->Ok_0;
                &&& after.wf()
                &&& after.cs.same_frame(self.cs)
                &&& forall|c: TableColumn| self.has_entry(c) ==> after.has_entry(c)
                &&& forall|c: TableColumn| self.has_default(c) ==> after.has_default(c)
                &&& forall|i: int|
                    0 <= i < cells.len() ==> after.has_entry((#[trigger] cells[i]).column) && (
                    cells[i].offset == 0 ==> after.has_default(cells[i].column))
                &&& forall|i: int| 0 <= i < cells.len() ==> !used.contains((#[trigger] cells[i]).column)
                &&& forall|c: TableColumn|
                    after.has_entry(c) ==> self.has_entry(c) || exists|i: int|
                        0 <= i < cells.len() && (#[trigger] cells[i]).column == c
            }),
        decreases cells.len(),
    {
        if cells.len() > 0 {
            let front = cells.drop_last();
            let last = cells.last();
            self.lemma_assign_cells(used, front);
            let before = self.assign_cells(used, front)->Ok_0;
            let after = self.assign_cells(used, cells)->Ok_0;
            before.lemma_assign_cell(used, last.column, last.offset, last.to);
            assert forall|c: TableColumn| self.has_entry(c) implies after.has_entry(c) by {
                before.lemma_assign_cell_keeps(used, last.column, last.offset, last.to, c);
            }
            assert forall|c: TableColumn| self.has_default(c) implies after.has_default(c) by {
                before.lemma_assign_cell_keeps(used, last.column, last.offset, last.to, c);
            }
            assert forall|i: int| 0 <= i < cells.len() implies after.has_entry(
                (#[trigger] cells[i]).column,
            ) && (cells[i].offset == 0 ==> after.has_default(cells[i].column)) && !used.contains(
                cells[i].column,
            ) by {
                before.lemma_assign_cell_keeps(
                    used,
                    last.column,
                    last.offset,
                    last.to,
                    cells[i].column,
                );
                if i < front.len() {
                    assert(front[i] == cells[i]);
                }
            }
            assert forall|c: TableColumn| after.has_entry(c) implies self.has_entry(c) || exists|
                i: int,
            |
                0 <= i < cells.len() && (#[trigger] cells[i]).column == c by {
                before.lemma_assign_cell_keeps(used, last.column, last.offset, last.to, c);
                if c == last.column {
                    assert(cells[cells.len() - 1].column == c);
                } else if !self.has_entry(c) {
                    let i = choose|i: int| 0 <= i < front.len() && (#[trigger] front[i]).column == c;
                    assert(cells[i] == front[i]);
                }
            }
        }
    }

    /// A table in which row 0 of a column is assigned twice cannot be
    /// assigned.
    pub proof fn lemma_second_default_fails(
        self,
        used: Seq<TableColumn>,
        cells: Seq<TableCell<F>>,
        i: int,
        j: int,
    )
        requires
            self.wf(),
            0 <= i < j < cells.len(),
            cells[i].column == cells[j].column,
            cells[i].offset == 0,
            cells[j].offset == 0,
        ensures
            self.assign_cells(used, cells) is Err,
    {
        if self.assign_cells(used, cells) is Ok {
            self.lemma_assign_cells_prefix(used, cells, j + 1);
            self.lemma_assign_cells_prefix(used, cells, j);
            let front = cells.subrange(0, j);
            assert(cells.subrange(0, j + 1).drop_last() =~= front);
            assert(cells.subrange(0, j + 1).last() == cells[j]);
            self.lemma_assign_cells(used, front);
            assert(front[i] == cells[i]);
            let before = self.assign_cells(used, front)->Ok_0;
            before.lemma_row_zero_twice_fails(used, cells[j].column, cells[j].to);
        }
    }

    /// A table with a cell in a column that is used cannot be assigned.
    pub proof fn lemma_used_column_is_refused(
        self,
        used: Seq<TableColumn>,
        cells: Seq<TableCell<F>>,
        j: int,
    )
        requires
            self.wf(),
            0 <= j < cells.len(),
            used.contains(cells[j].column),
        ensures
            self.assign_cells(used, cells) is Err,
    {
        if self.assign_cells(used, cells) is Ok {
            self.lemma_assign_cells(used, cells);
        }
    }

    /// Whether a table can be assigned depends on the frame of the assembly
    /// and on the columns that are used, not on what the assembly holds; and
    /// what is then known of its columns depends on the cells alone.
    pub proof fn lemma_assign_cells_by_frame(
        self,
        other: Self,
        used: Seq<TableColumn>,
        cells: Seq<TableCell<F>>,
    )
        requires
            self.wf(),
            other.wf(),
            self.cs.same_frame(other.cs),
            self.entries == other.entries,
            self.assign_cells(used, cells) is Ok,
        ensures
            other.assign_cells(used, cells) is Ok,
            other.assign_cells(used, cells)->Ok_0.entries == self.assign_cells(
                used,
                cells,
            )->Ok_0.entries,
            other.assign_cells(used, cells)->Ok_0.cs.same_frame(
                self.assign_cells(used, cells)->Ok_0.cs,
            ),
        decreases cells.len(),
    {
        if cells.len() > 0 {
            let front = cells.drop_last();
            let last = cells.last();
            self.lemma_assign_cells_by_frame(other, used, front);
            self.lemma_assign_cells(used, front);
            other.lemma_assign_cells(used, front);
            let mine = self.assign_cells(used, front)->Ok_0;
            let theirs = other.assign_cells(used, front)->Ok_0;
            mine.lemma_assign_cell(used, last.column, last.offset, last.to);
            theirs.lemma_assign_cell(used, last.column, last.offset, last.to);
        }
    }
}

/// Filling each column of `entries`, in their order, with its default value
/// from the row `first_unused` on. Stops at the first column that fails.
pub open spec fn fill_defaults<F>(
    cs: AssemblyView<F>,
    entries: Seq<TableEntryView<F>>,
    first_unused: usize,
) -> Result<AssemblyView<F>, Error>
    decreases entries.len(),
{
    if entries.len() == 0 {
        Ok(cs)
    } else {
        match fill_defaults(cs, entries.drop_last(), first_unused) {
            Err(e) => Err(e),
            Ok(cs) => cs.fill_from_row(
                entries.last().column.inner,
                first_unused,
                entries.last().default->0,
            ),
        }
    }
}

/// What the assembly holds once the columns of `entries` were to be filled:
/// the columns before the first that fails are filled, the others are as
/// they were.
pub open spec fn after_fill_defaults<F>(
    cs: AssemblyView<F>,
    entries: Seq<TableEntryView<F>>,
    first_unused: usize,
) -> AssemblyView<F>
    decreases entries.len(),
{
    if entries.len() == 0 {
        cs
    } else {
        match fill_defaults(cs, entries.drop_last(), first_unused) {
            Err(e) => after_fill_defaults(cs, entries.drop_last(), first_unused),
            Ok(filled) => match filled.fill_from_row(
                entries.last().column.inner,
                first_unused,
                entries.last().default->0,
            ) {
                Ok(after) => after,
                Err(e) => filled,
            },
        }
    }
}

/// The columns of `entries`, in their order.
pub open spec fn entry_columns<F>(entries: Seq<TableEntryView<F>>) -> Seq<TableColumn> {
    Seq::new(entries.len(), |i: int| entries[i].column)
}

/// Once a column has failed, the columns after it are not filled.
pub proof fn lemma_fill_defaults_stops<F>(
    cs: AssemblyView<F>,
    entries: Seq<TableEntryView<F>>,
    first_unused: usize,
    n: int,
)
    requires
        0 <= n <= entries.len(),
        fill_defaults(cs, entries.subrange(0, n), first_unused) is Err,
    ensures
        fill_defaults(cs, entries, first_unused) == fill_defaults(
            cs,
            entries.subrange(0, n),
            first_unused,
        ),
        after_fill_defaults(cs, entries, first_unused) == after_fill_defaults(
            cs,
            entries.subrange(0, n),
            first_unused,
        ),
    decreases entries.len() - n,
{
    if n < entries.len() {
        assert(entries.subrange(0, n + 1).drop_last() =~= entries.subrange(0, n));
        lemma_fill_defaults_stops(cs, entries, first_unused, n + 1);
    } else {
        assert(entries.subrange(0, n) =~= entries);
    }
}

/// The length that all of `entries` share, if there is one.
pub(crate) fn common_length<F>(entries: &Vec<TableEntry<F>>) -> (length: Option<usize>)
    ensures
        match (TableView::<F> { cs: arbitrary(), entries: entry_views(entries@) }).common_length() {
            Some(n) => length == Some(n as usize) && n <= usize::MAX,
            None => length is None,
        },
{
    if entries.len() == 0 {
        return None;
    }
    let ghost views = entry_views(entries@);
    let first_unused = entries[0].assigned.len();
    let mut i: usize = 0;
    while i < entries.len()
        invariant
            views == entry_views(entries@),
            0 < entries@.len(),
            i <= entries@.len(),
            first_unused == views[0].assigned.len(),
            forall|j: int|
                0 <= j < i ==> (#[trigger] views[j]).complete() && views[j].assigned.len()
                    == first_unused,
        decreases entries@.len() - i,
    {
        let assigned = &entries[i].assigned;
        assert(assigned@ == views[i as int].assigned);
        if assigned.len() != first_unused {
            return None;
        }
        let mut row: usize = 0;
        while row < assigned.len()
            invariant
                row <= assigned@.len(),
                i < entries@.len(),
                views == entry_views(entries@),
                assigned@ == views[i as int].assigned,
                forall|k: int| 0 <= k < row ==> assigned@[k],
            decreases assigned@.len() - row,
        {
            if !assigned[row] {
                assert(!views[i as int].complete());
                return None;
            }
            row = row + 1;
        }
        i = i + 1;
    }
    Some(first_unused)
}

/// Whether the columns of a table can be filled with their defaults
/// depends on the frame of the assembly alone.
pub proof fn lemma_fill_defaults_by_frame<F>(
    a: AssemblyView<F>,
    b: AssemblyView<F>,
    entries: Seq<TableEntryView<F>>,
    first_unused: usize,
)
    requires
        a.wf(),
        b.wf(),
        a.same_frame(b),
        fill_defaults(a, entries, first_unused) is Ok,
    ensures
        fill_defaults(b, entries, first_unused) is Ok,
        fill_defaults(a, entries, first_unused)->Ok_0.wf(),
        fill_defaults(a, entries, first_unused)->Ok_0.same_frame(a),
        fill_defaults(b, entries, first_unused)->Ok_0.wf(),
        fill_defaults(b, entries, first_unused)->Ok_0.same_frame(b),
    decreases entries.len(),
{
    if entries.len() > 0 {
        lemma_fill_defaults_by_frame(a, b, entries.drop_last(), first_unused);
    }
}

impl<F> TableView<F> {
    /// What a cell that fails leaves behind. Where its column is used, or
    /// the assembly refuses the write, the table is as it was: no row is
    /// marked and no default recorded. Otherwise it is row 0 that is
    /// assigned a second time: the assembly holds the new value, and the
    /// entries are as they were, the first default among them.
    pub proof fn lemma_failed_cell(
        self,
        used: Seq<TableColumn>,
        column: TableColumn,
        offset: usize,
        to: Value<Assigned<F>>,
    )
        requires
            self.assign_cell(used, column, offset, to) is Err,
        ensures
            ({
                let after = self.after_cell(used, column, offset, to);
                let written = self.cs.assign_fixed(column.inner, offset, to);
                &&& used.contains(column) || written is Err ==> after == self
                &&& !used.contains(column) && written is Ok ==> offset == 0 && self.has_default(
                    column,
                ) && after.entries == self.entries && after.cs == written->Ok_0
            }),
    {
    }

    /// Cells are never assigned to a column that is used: whatever becomes
    /// of the cells `cells`, a column that is used holds what it held, and
    /// none gets an entry. Where all cells are assigned, the table is what
    /// [`Self::assign_cells`] gives.
    pub proof fn lemma_after_cells_spares_used(
        self,
        used: Seq<TableColumn>,
        cells: Seq<TableCell<F>>,
        column: TableColumn,
    )
        requires
            self.cs.wf(),
            used.contains(column),
            forall|i: int| 0 <= i < self.entries.len() ==> !used.contains(
                (#[trigger] self.entries[i]).column,
            ),
        ensures
            self.assign_cells(used, cells) matches Ok(table) ==> self.after_cells(used, cells)
                == table,
            self.after_cells(used, cells).cs.wf(),
            self.after_cells(used, cells).cs.same_frame(self.cs),
            column.inner.index < self.cs.fixed.len() ==> self.after_cells(
                used,
                cells,
            ).cs.fixed[column.inner.index as int] == self.cs.fixed[column.inner.index as int],
            forall|i: int|
                0 <= i < self.after_cells(used, cells).entries.len() ==> !used.contains(
                    (#[trigger] self.after_cells(used, cells).entries[i]).column,
                ),
        decreases cells.len(),
    {
        if cells.len() > 0 {
            let front = cells.drop_last();
            let last = cells.last();
            self.lemma_after_cells_spares_used(used, front, column);
            if let Ok(before) = self.assign_cells(used, front) {
                let after = before.after_cell(used, last.column, last.offset, last.to);
                if !used.contains(last.column) {
                    if last.column.inner.index == column.inner.index {
                        TableColumn::lemma_same_index(last.column, column);
                    }
                    lemma_position(before.entries, last.column);
                    assert forall|i: int| 0 <= i < after.entries.len() implies !used.contains(
                        (#[trigger] after.entries[i]).column,
                    ) by {
                        if i < before.entries.len() {
                            assert(after.entries[i].column == before.entries[i].column);
                        }
                    }
                }
            }
        }
    }
}

/// Filling the columns of a table writes to no other column: whatever
/// becomes of the filling, the fixed column `index` holds what it held
/// where it is not a column of `entries`. Where all columns are filled, the
/// assembly is what [`fill_defaults`] gives.
pub proof fn lemma_after_fill_defaults_spares<F>(
    cs: AssemblyView<F>,
    entries: Seq<TableEntryView<F>>,
    first_unused: usize,
    index: usize,
)
    requires
        cs.wf(),
    ensures
        fill_defaults(cs, entries, first_unused) matches Ok(filled) ==> after_fill_defaults(
            cs,
            entries,
            first_unused,
        ) == filled,
        after_fill_defaults(cs, entries, first_unused).wf(),
        after_fill_defaults(cs, entries, first_unused).same_frame(cs),
        (index < cs.fixed.len() && forall|i: int|
            0 <= i < entries.len() ==> (#[trigger] entries[i]).column.inner.index != index)
            ==> after_fill_defaults(cs, entries, first_unused).fixed[index as int]
            == cs.fixed[index as int],
    decreases entries.len(),
{
    if entries.len() > 0 {
        let front = entries.drop_last();
        lemma_after_fill_defaults_spares(cs, front, first_unused, index);
        if forall|i: int| 0 <= i < entries.len() ==> (#[trigger] entries[i]).column.inner.index
            != index {
            assert forall|i: int| 0 <= i < front.len() implies (
            #[trigger] front[i]).column.inner.index != index by {
                assert(front[i] == entries[i]);
            }
            assert(entries[entries.len() - 1].column.inner.index != index);
        }
    }
}

} // verus!
