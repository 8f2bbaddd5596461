//! The assembly that key generation synthesizes a circuit into, and the
//! contexts that it forks for regions that are assigned in parallel.

use vstd::prelude::*;
use std::ops::Range;
use crate::permutation;
use crate::cell::{CopyCell, Equality};
use crate::column::{Advice, Any, Challenge, Column, Fixed, Instance, Selector};
use crate::error::Error;
use crate::value::{Assigned, Value};

verus! {

/// The contents of a grid of columns, column by column.
pub open spec fn grid_view<T>(grid: Vec<Vec<T>>) -> Seq<Seq<T>> {
    Seq::new(grid@.len(), |c: int| grid@[c]@)
}

/// What an [`Assembly`] holds, as mathematical values.
///
/// `fixed[c][i]` and `selectors[s][i]` stand for row `rw_rows.start + i` of
/// the grid.
pub struct AssemblyView<F> {
    /// The size parameter of the grid, reported when rows run out.
    pub k: u32,
    /// The fixed columns, from the first row of the window on.
    pub fixed: Seq<Seq<Assigned<F>>>,
    /// The selectors, from the first row of the window on.
    pub selectors: Seq<Seq<bool>>,
    /// The equality constraints handed to the permutation builder, where one
    /// is attached.
    pub permutation: Option<Seq<Equality>>,
    /// The equality constraints kept for a later merge, where no builder is
    /// attached.
    pub copies: Seq<Equality>,
    /// The rows that this context may read and write.
    pub rw_rows: Range<usize>,
    /// The rows that can be assigned at all.
    pub usable_rows: Range<usize>,
}

impl<F> AssemblyView<F> {
    /// The window lies within the usable rows, and every column covers it.
    pub open spec fn wf(self) -> bool {
        &&& self.usable_rows.start <= self.rw_rows.start
        &&& self.rw_rows.start <= self.rw_rows.end
        &&& self.rw_rows.end <= self.usable_rows.end
        &&& forall|c: int|
            0 <= c < self.fixed.len() ==> (#[trigger] self.fixed[c]).len() >= self.rw_rows.end
                - self.rw_rows.start
        &&& forall|s: int|
            0 <= s < self.selectors.len() ==> (#[trigger] self.selectors[s]).len()
                >= self.rw_rows.end - self.rw_rows.start
    }

    /// Whether `other` has the same size parameter, rows and numbers of
    /// columns as this assembly. Nothing but a fork changes them.
    pub open spec fn same_frame(self, other: Self) -> bool {
        &&& self.k == other.k
        &&& self.rw_rows == other.rw_rows
        &&& self.usable_rows == other.usable_rows
        &&& self.fixed.len() == other.fixed.len()
        &&& self.selectors.len() == other.selectors.len()
        &&& self.permutation is Some <==> other.permutation is Some
    }

    /// The equality constraints that this assembly has recorded, wherever it
    /// keeps them.
    pub open spec fn equalities(self) -> Seq<Equality> {
        match self.permutation {
            Some(p) => p,
            None => self.copies,
        }
    }

    /// Whether `row` can be assigned at all.
    pub open spec fn usable(self, row: usize) -> bool {
        self.usable_rows.start <= row < self.usable_rows.end
    }

    /// Whether this context may read and write `row`.
    pub open spec fn writable(self, row: usize) -> bool {
        self.rw_rows.start <= row < self.rw_rows.end
    }

    /// The error for a row that is not usable.
    pub open spec fn out_of_rows(self) -> Error {
        Error::NotEnoughRowsAvailable { current_k: self.k }
    }

    /// Switching `selector` on at `row`.
    pub open spec fn enable_selector(self, selector: Selector, row: usize) -> Result<Self, Error> {
        if !self.usable(row) {
            Err(self.out_of_rows())
        } else if !self.writable(row) {
            Err(Error::Synthesis)
        } else if selector.0 >= self.selectors.len() {
            Err(Error::BoundsFailure)
        } else {
            Ok(
                AssemblyView {
                    selectors: self.selectors.update(
                        selector.0 as int,
                        self.selectors[selector.0 as int].update(row - self.rw_rows.start, true),
                    ),
                    ..self
                },
            )
        }
    }

    /// Reading the fixed cell at `column` and `row`.
    pub open spec fn query_fixed(self, column: Column<Fixed>, row: usize) -> Result<
        Assigned<F>,
        Error,
    > {
        if !self.usable(row) {
            Err(self.out_of_rows())
        } else if !self.writable(row) {
            Err(Error::Synthesis)
        } else if column.index >= self.fixed.len() {
            Err(Error::BoundsFailure)
        } else if row - self.rw_rows.start >= self.fixed[column.index as int].len() {
            Err(Error::BoundsFailure)
        } else {
            Ok(self.fixed[column.index as int][row - self.rw_rows.start])
        }
    }

    /// Reading an instance cell: key generation knows no instance.
    pub open spec fn query_instance(self, row: usize) -> Result<Value<F>, Error> {
        if !self.usable(row) {
            Err(self.out_of_rows())
        } else {
            Ok(Value { inner: None })
        }
    }

    /// Writing `to` to the fixed cell at `column` and `row`.
    pub open spec fn assign_fixed(
        self,
        column: Column<Fixed>,
        row: usize,
        to: Value<Assigned<F>>,
    ) -> Result<Self, Error> {
        if !self.usable(row) {
            Err(self.out_of_rows())
        } else if !self.writable(row) {
            Err(Error::Synthesis)
        } else if to.inner is None {
            Err(Error::Synthesis)
        } else if column.index >= self.fixed.len() {
            Err(Error::BoundsFailure)
        } else if row - self.rw_rows.start >= self.fixed[column.index as int].len() {
            Err(Error::BoundsFailure)
        } else {
            Ok(
                AssemblyView {
                    fixed: self.fixed.update(
                        column.index as int,
                        self.fixed[column.index as int].update(
                            row - self.rw_rows.start,
                            to.inner->0,
                        ),
                    ),
                    ..self
                },
            )
        }
    }

    /// Recording an equality constraint: with the builder where one is
    /// attached, in the buffer otherwise.
    pub open spec fn record(self, copy: Equality) -> Self {
        match self.permutation {
            Some(p) => AssemblyView { permutation: Some(p.push(copy)), ..self },
            None => AssemblyView { copies: self.copies.push(copy), ..self },
        }
    }

    /// Constraining the two positions to hold equal values.
    pub open spec fn copy(
        self,
        left_column: Column<Any>,
        left_row: usize,
        right_column: Column<Any>,
        right_row: usize,
    ) -> Result<Self, Error> {
        if !self.usable(left_row) || !self.usable(right_row) {
            Err(self.out_of_rows())
        } else {
            Ok(
                self.record(
                    (
                        CopyCell { column: left_column, row: left_row },
                        CopyCell { column: right_column, row: right_row },
                    ),
                ),
            )
        }
    }

    /// A column in which every row of the window from `from_row` on holds
    /// `filler`, and the rows before hold what `column` held.
    pub open spec fn filled(
        self,
        column: Seq<Assigned<F>>,
        from_row: usize,
        filler: Assigned<F>,
    ) -> Seq<Assigned<F>> {
        Seq::new(
            column.len(),
            |i: int|
                if from_row <= self.rw_rows.start + i < self.rw_rows.end {
                    filler
                } else {
                    column[i]
                },
        )
    }

    /// Writing `to` to every row of `column` from `from_row` on.
    pub open spec fn fill_from_row(
        self,
        column: Column<Fixed>,
        from_row: usize,
        to: Value<Assigned<F>>,
    ) -> Result<Self, Error> {
        if !self.usable(from_row) {
            Err(self.out_of_rows())
        } else if column.index >= self.fixed.len() {
            Err(Error::BoundsFailure)
        } else if to.inner is None {
            Err(Error::Synthesis)
        } else {
            Ok(
                AssemblyView {
                    fixed: self.fixed.update(
                        column.index as int,
                        self.filled(self.fixed[column.index as int], from_row, to.inner->0),
                    ),
                    ..self
                },
            )
        }
    }
}

impl<F> AssemblyView<F> {
    /// The row at which range `i` of `ranges` may start at the earliest: the
    /// end of the range before it, or the start of the window.
    pub open spec fn earliest_start(self, ranges: Seq<Range<usize>>, i: int) -> int {
        if i == 0 {
            self.rw_rows.start as int
        } else {
            ranges[i - 1].end as int
        }
    }

    /// Whether `ranges` can be carved out of the window: each range starts
    /// where the one before it ends or later, none ends before it starts,
    /// and none reaches beyond the window.
    pub open spec fn ranges_fit(self, ranges: Seq<Range<usize>>) -> bool {
        forall|i: int|
            0 <= i < ranges.len() ==> {
                &&& self.rw_rows.start <= (#[trigger] ranges[i]).start
                &&& self.earliest_start(ranges, i) <= ranges[i].start
                &&& ranges[i].start <= ranges[i].end
                &&& ranges[i].end <= self.rw_rows.end
            }
    }

    /// The context that owns the rows of `range`: it holds what this context
    /// holds in those rows, no builder, and no equality constraint.
    pub open spec fn window(self, range: Range<usize>) -> Self {
        AssemblyView {
            k: self.k,
            fixed: Seq::new(
                self.fixed.len(),
                |c: int|
                    self.fixed[c].subrange(
                        range.start - self.rw_rows.start,
                        range.end - self.rw_rows.start,
                    ),
            ),
            selectors: Seq::new(
                self.selectors.len(),
                |c: int|
                    self.selectors[c].subrange(
                        range.start - self.rw_rows.start,
                        range.end - self.rw_rows.start,
                    ),
            ),
            permutation: None,
            copies: Seq::empty(),
            rw_rows: range,
            usable_rows: self.usable_rows,
        }
    }

    /// Forking into one context for each of `ranges`.
    pub open spec fn fork(self, ranges: Seq<Range<usize>>) -> Result<Seq<Self>, Error> {
        if self.ranges_fit(ranges) {
            Ok(Seq::new(ranges.len(), |i: int| self.window(ranges[i])))
        } else {
            Err(Error::Synthesis)
        }
    }

    /// Recording the equality constraints `copies`, in their order.
    pub open spec fn record_all(self, copies: Seq<Equality>) -> Self {
        match self.permutation {
            Some(p) => AssemblyView { permutation: Some(p + copies), ..self },
            None => AssemblyView { copies: self.copies + copies, ..self },
        }
    }

    /// Whether `sub` can be merged into this context: its window lies within
    /// the window of this context, and it has the same columns.
    pub open spec fn fits(self, sub: Self) -> bool {
        &&& self.rw_rows.start <= sub.rw_rows.start
        &&& sub.rw_rows.end <= self.rw_rows.end
        &&& sub.fixed.len() == self.fixed.len()
        &&& sub.selectors.len() == self.selectors.len()
    }

    /// Taking back the rows of `sub`, and recording its equality constraints.
    pub open spec fn absorb(self, sub: Self) -> Self {
        let at = sub.rw_rows.start - self.rw_rows.start;
        let len = sub.rw_rows.end - sub.rw_rows.start;
        AssemblyView {
            fixed: Seq::new(
                self.fixed.len(),
                |c: int| overlay(self.fixed[c], at, sub.fixed[c].subrange(0, len)),
            ),
            selectors: Seq::new(
                self.selectors.len(),
                |c: int| overlay(self.selectors[c], at, sub.selectors[c].subrange(0, len)),
            ),
            ..self
        }.record_all(sub.copies)
    }

    /// Taking back each of `subs` in turn.
    pub open spec fn absorb_all(self, subs: Seq<Self>) -> Self
        decreases subs.len(),
    {
        if subs.len() == 0 {
            self
        } else {
            self.absorb_all(subs.drop_last()).absorb(subs.last())
        }
    }

    /// Merging the forked contexts `subs` back, in their order.
    pub open spec fn merge(self, subs: Seq<Self>) -> Result<Self, Error> {
        if forall|i: int| 0 <= i < subs.len() ==> self.fits(#[trigger] subs[i]) {
            Ok(self.absorb_all(subs))
        } else {
            Err(Error::Synthesis)
        }
    }

    /// The assembly that key generation starts from: every fixed cell holds
    /// zero, no selector is on, and the builder holds no constraint.
    pub open spec fn empty(
        k: u32,
        n: usize,
        num_fixed_columns: usize,
        num_selectors: usize,
        usable_rows: Range<usize>,
    ) -> Self {
        AssemblyView {
            k,
            fixed: Seq::new(
                num_fixed_columns as nat,
                |c: int| Seq::new(n as nat, |i: int| Assigned::Zero),
            ),
            selectors: Seq::new(num_selectors as nat, |c: int| Seq::new(n as nat, |i: int| false)),
            permutation: Some(Seq::empty()),
            copies: Seq::empty(),
            rw_rows: usable_rows,
            usable_rows,
        }
    }
}

/// The column `column` with `window` written over it from position `at` on.
pub open spec fn overlay<T>(column: Seq<T>, at: int, window: Seq<T>) -> Seq<T> {
    Seq::new(
        column.len(),
        |i: int|
            if at <= i < at + window.len() {
                window[i - at]
            } else {
                column[i]
            },
    )
}

/// What each of `assemblies` holds.
pub open spec fn assembly_views<F>(assemblies: Seq<Assembly<F>>) -> Seq<AssemblyView<F>> {
    Seq::new(assemblies.len(), |i: int| assemblies[i]@)
}

/// Whether an operation that should take the state `before` to `expected`, or
/// fail, did so: on failure the state is unchanged.
pub open spec fn stepped<S>(
    before: S,
    after: S,
    result: Result<(), Error>,
    expected: Result<S, Error>,
) -> bool {
    match expected {
        Ok(next) => result is Ok && after == next,
        Err(e) => result == Err::<(), Error>(e) && after == before,
    }
}

/// The assembly that key generation synthesizes a circuit into. It stores
/// the fixed columns and the selectors, and collects the equality
/// constraints; advice is not stored, and no instance is known.
///
/// An assembly is either the root, which holds the permutation builder, or a
/// context forked from another assembly, which may write only to its own
/// window of rows and keeps its equality constraints until it is merged.
#[derive(Debug)]
pub struct Assembly<F> {
    k: u32,
    fixed: Vec<Vec<Assigned<F>>>,
    permutation: Option<permutation::Assembly>,
    selectors: Vec<Vec<bool>>,
    rw_rows: Range<usize>,
    copies: Vec<Equality>,
    usable_rows: Range<usize>,
}

impl<F> View for Assembly<F> {
    type V = AssemblyView<F>;

    closed spec fn view(&self) -> AssemblyView<F> {
        AssemblyView {
            k: self.k,
            fixed: grid_view(self.fixed),
            selectors: grid_view(self.selectors),
            permutation: match self.permutation {
                Some(p) => Some(p@),
                None => None,
            },
            copies: self.copies@,
            rw_rows: self.rw_rows,
            usable_rows: self.usable_rows,
        }
    }
}

/// Writes `value` to row `row` of column `col` of `grid`.
fn set_cell<T>(grid: &mut Vec<Vec<T>>, col: usize, row: usize, value: T)
    requires
        col < old(grid)@.len(),
        row < old(grid)@[col as int]@.len(),
    ensures
        grid_view(*final(grid)) == grid_view(*old(grid)).update(
            col as int,
            grid_view(*old(grid))[col as int].update(row as int, value),
        ),
{
    grid[col][row] = value;
    assert(grid_view(*grid) =~= grid_view(*old(grid)).update(
        col as int,
        grid_view(*old(grid))[col as int].update(row as int, value),
    ));
}

/// A grid of `columns` columns of `rows` rows that hold `value` everywhere.
fn filled_grid<T: Copy>(columns: usize, rows: usize, value: T) -> (grid: Vec<Vec<T>>)
    ensures
        grid_view(grid) == Seq::new(columns as nat, |c: int| Seq::new(rows as nat, |i: int| value)),
{
    let mut grid: Vec<Vec<T>> = Vec::new();
    let mut c: usize = 0;
    while c < columns
        invariant
            c <= columns,
            grid@.len() == c,
            forall|d: int| 0 <= d < c ==> (#[trigger] grid@[d])@ == Seq::new(rows as nat, |i: int| value),
        decreases columns - c,
    {
        let mut column: Vec<T> = Vec::new();
        let mut i: usize = 0;
        while i < rows
            invariant
                i <= rows,
                column@ == Seq::new(i as nat, |i: int| value),
            decreases rows - i,
        {
            column.push(value);
            i = i + 1;
            assert(column@ =~= Seq::new(i as nat, |i: int| value));
        }
        grid.push(column);
        c = c + 1;
    }
    assert(grid_view(grid) =~= Seq::new(
        columns as nat,
        |c: int| Seq::new(rows as nat, |i: int| value),
    ));
    grid
}

/// The rows from `from` up to `to` of every column of `grid`.
fn copy_window<T: Copy>(grid: &Vec<Vec<T>>, from: usize, to: usize) -> (window: Vec<Vec<T>>)
    requires
        from <= to,
        forall|c: int| 0 <= c < grid@.len() ==> to <= (#[trigger] grid@[c])@.len(),
    ensures
        grid_view(window) == Seq::new(
            grid@.len(),
            |c: int| grid_view(*grid)[c].subrange(from as int, to as int),
        ),
{
    let mut window: Vec<Vec<T>> = Vec::new();
    let mut c: usize = 0;
    while c < grid.len()
        invariant
            from <= to,
            forall|c: int| 0 <= c < grid@.len() ==> to <= (#[trigger] grid@[c])@.len(),
            c <= grid@.len(),
            window@.len() == c,
            forall|d: int|
                0 <= d < c ==> (#[trigger] window@[d])@ == grid@[d]@.subrange(
                    from as int,
                    to as int,
                ),
        decreases grid@.len() - c,
    {
        let mut column: Vec<T> = Vec::new();
        let mut i: usize = from;
        while i < to
            invariant
                c < grid@.len(),
                to <= grid@[c as int]@.len(),
                from <= i <= to,
                column@ == grid@[c as int]@.subrange(from as int, i as int),
            decreases to - i,
        {
            column.push(grid[c][i]);
            i = i + 1;
            assert(column@ =~= grid@[c as int]@.subrange(from as int, i as int));
        }
        window.push(column);
        c = c + 1;
    }
    assert(grid_view(window) =~= Seq::new(
        grid@.len(),
        |c: int| grid_view(*grid)[c].subrange(from as int, to as int),
    ));
    window
}

/// Writes the first `len` rows of every column of `window` over the rows of
/// `grid` from `at` on.
fn write_window<T: Copy>(grid: &mut Vec<Vec<T>>, at: usize, window: &Vec<Vec<T>>, len: usize)
    requires
        old(grid)@.len() == window@.len(),
        forall|c: int| 0 <= c < old(grid)@.len() ==> at + len <= (#[trigger] old(grid)@[c])@.len(),
        forall|c: int| 0 <= c < window@.len() ==> len <= (#[trigger] window@[c])@.len(),
    ensures
        grid_view(*final(grid)) == Seq::new(
            old(grid)@.len(),
            |c: int|
                overlay(
                    grid_view(*old(grid))[c],
                    at as int,
                    grid_view(*window)[c].subrange(0, len as int),
                ),
        ),
{
    let ghost before = grid_view(*grid);
    let ghost source = grid_view(*window);
    let mut c: usize = 0;
    while c < grid.len()
        invariant
            before == grid_view(*old(grid)),
            source == grid_view(*window),
            before.len() == source.len(),
            forall|c: int| 0 <= c < before.len() ==> at + len <= (#[trigger] before[c]).len(),
            forall|c: int| 0 <= c < source.len() ==> len <= (#[trigger] source[c]).len(),
            c <= before.len(),
            grid_view(*grid) == Seq::new(
                before.len(),
                |d: int|
                    if d < c {
                        overlay(before[d], at as int, source[d].subrange(0, len as int))
                    } else {
                        before[d]
                    },
            ),
        decreases before.len() - c,
    {
        let mut i: usize = 0;
        assert(grid_view(*grid).len() == before.len());
        assert(grid_view(*grid)[c as int] == before[c as int]);
        assert(before[c as int] == grid@[c as int]@);
        let height: usize = grid[c].len();
        assert(before[c as int].len() == height);
        assert(source[c as int] == window@[c as int]@);
        assert(overlay(before[c as int], at as int, source[c as int].subrange(0, 0))
            =~= before[c as int]);
        assert(grid_view(*grid) =~= Seq::new(
            before.len(),
            |d: int|
                if d < c {
                    overlay(before[d], at as int, source[d].subrange(0, len as int))
                } else if d == c {
                    overlay(before[d], at as int, source[d].subrange(0, 0))
                } else {
                    before[d]
                },
        ));
        while i < len
            invariant
                before.len() == source.len(),
                source == grid_view(*window),
                c < before.len(),
                at + len <= before[c as int].len(),
                before[c as int].len() <= usize::MAX,
                len <= source[c as int].len(),
                i <= len,
                grid_view(*grid) == Seq::new(
                    before.len(),
                    |d: int|
                        if d < c {
                            overlay(before[d], at as int, source[d].subrange(0, len as int))
                        } else if d == c {
                            overlay(before[d], at as int, source[d].subrange(0, i as int))
                        } else {
                            before[d]
                        },
                ),
            decreases len - i,
        {
            let ghost current = grid_view(*grid);
            assert(current.len() == before.len());
            assert(current[c as int].len() == before[c as int].len());
            assert(source[c as int] == window@[c as int]@);
            let value = window[c][i];
            set_cell(grid, c, at + i, value);
            i = i + 1;
            assert(current[c as int].update(at + i - 1, value) =~= overlay(
                before[c as int],
                at as int,
                source[c as int].subrange(0, i as int),
            ));
            assert(grid_view(*grid) =~= Seq::new(
                before.len(),
                |d: int|
                    if d < c {
                        overlay(before[d], at as int, source[d].subrange(0, len as int))
                    } else if d == c {
                        overlay(before[d], at as int, source[d].subrange(0, i as int))
                    } else {
                        before[d]
                    },
            ));
        }
        c = c + 1;
        assert(grid_view(*grid) =~= Seq::new(
            before.len(),
            |d: int|
                if d < c {
                    overlay(before[d], at as int, source[d].subrange(0, len as int))
                } else {
                    before[d]
                },
        ));
    }
    assert(grid_view(*grid) =~= Seq::new(
        before.len(),
        |c: int| overlay(before[c], at as int, source[c].subrange(0, len as int)),
    ));
}

impl<F: Copy> Assembly<F> {
    /// The assembly that key generation starts from, for a grid of `n` rows
    /// of which `usable_rows` can be assigned: every fixed cell holds zero, no
    /// selector is on, and the builder holds no constraint.
    pub fn new(
        k: u32,
        n: usize,
        num_fixed_columns: usize,
        num_selectors: usize,
        usable_rows: Range<usize>,
    ) -> (assembly: Self)
        requires
            usable_rows.start <= usable_rows.end <= n,
        ensures
            assembly@ == AssemblyView::<F>::empty(
                k,
                n,
                num_fixed_columns,
                num_selectors,
                usable_rows,
            ),
            assembly@.wf(),
    {
        Assembly {
            k,
            fixed: filled_grid(num_fixed_columns, n, Assigned::Zero),
            permutation: Some(permutation::Assembly::new()),
            selectors: filled_grid(num_selectors, n, false),
            rw_rows: usable_rows.start..usable_rows.end,
            copies: Vec::new(),
            usable_rows,
        }
    }

    /// Forks one context for each of `ranges`. Each context holds the rows of
    /// its range, and those rows are its window.
    ///
    /// Fails with `Synthesis`, before anything is carved out, unless the
    /// ranges lie within the window of this context, in ascending order and
    /// without overlap.
    pub fn fork(&self, ranges: &[Range<usize>]) -> (r: Result<Vec<Assembly<F>>, Error>)
        requires
            self@.wf(),
        ensures
            match self@.fork(ranges@) {
                Ok(subs) => r matches Ok(sub_cs) && assembly_views(sub_cs@) == subs && forall|i: int|
                    0 <= i < sub_cs@.len() ==> (#[trigger] sub_cs@[i])@.wf(),
                Err(e) => r matches Err(f) && f == e,
            },
    {
        let mut range_start: usize = self.rw_rows.start;
        let mut i: usize = 0;
        while i < ranges.len()
            invariant
                self@.wf(),
                i <= ranges@.len(),
                range_start == self@.earliest_start(ranges@, i as int),
                self@.rw_rows.start <= range_start,
                forall|j: int|
                    0 <= j < i ==> {
                        &&& self@.rw_rows.start <= (#[trigger] ranges@[j]).start
                        &&& self@.earliest_start(ranges@, j) <= ranges@[j].start
                        &&& ranges@[j].start <= ranges@[j].end
                        &&& ranges@[j].end <= self@.rw_rows.end
                    },
            decreases ranges@.len() - i,
        {
            let sub_range = &ranges[i];
            if sub_range.start < range_start || sub_range.end < sub_range.start || sub_range.end
                > self.rw_rows.end {
                assert(!self@.ranges_fit(ranges@)) by {
                    let _ = ranges@[i as int];
                }
                return Err(Error::Synthesis);
            }
            range_start = sub_range.end;
            i = i + 1;
        }
        assert(self@.ranges_fit(ranges@));
        let mut sub_cs: Vec<Assembly<F>> = Vec::new();
        let mut i: usize = 0;
        while i < ranges.len()
            invariant
                self@.wf(),
                self@.ranges_fit(ranges@),
                i <= ranges@.len(),
                sub_cs@.len() == i,
                forall|j: int| 0 <= j < i ==> (#[trigger] sub_cs@[j])@ == self@.window(ranges@[j]),
                forall|j: int| 0 <= j < i ==> (#[trigger] sub_cs@[j])@.wf(),
            decreases ranges@.len() - i,
        {
            let sub_range = &ranges[i];
            let ghost range = ranges@[i as int];
            let from: usize = sub_range.start - self.rw_rows.start;
            let to: usize = sub_range.end - self.rw_rows.start;
            assert forall|c: int| 0 <= c < self.fixed@.len() implies to <= (
            #[trigger] self.fixed@[c])@.len() by {
                assert(grid_view(self.fixed)[c].len() >= self.rw_rows.end - self.rw_rows.start);
            }
            assert forall|c: int| 0 <= c < self.selectors@.len() implies to <= (
            #[trigger] self.selectors@[c])@.len() by {
                assert(grid_view(self.selectors)[c].len() >= self.rw_rows.end
                    - self.rw_rows.start);
            }
            let sub = Assembly {
                k: self.k,
                fixed: copy_window(&self.fixed, from, to),
                permutation: None,
                selectors: copy_window(&self.selectors, from, to),
                rw_rows: sub_range.start..sub_range.end,
                copies: Vec::new(),
                usable_rows: self.usable_rows.start..self.usable_rows.end,
            };
            assert(sub@ =~~= self@.window(range));
            assert(sub@.wf());
            sub_cs.push(sub);
            i = i + 1;
        }
        assert(assembly_views(sub_cs@) =~= Seq::new(
            ranges@.len(),
            |i: int| self@.window(ranges@[i]),
        ));
        Ok(sub_cs)
    }

    /// Whether `sub` can be merged into this context.
    fn fits(&self, sub: &Assembly<F>) -> (b: bool)
        ensures
            b == self@.fits(sub@),
    {
        self.rw_rows.start <= sub.rw_rows.start && sub.rw_rows.end <= self.rw_rows.end
            && sub.fixed.len() == self.fixed.len() && sub.selectors.len() == self.selectors.len()
    }

    /// Takes back the rows of `sub`, and records its equality constraints.
    fn absorb(&mut self, sub: &Assembly<F>)
        requires
            old(self)@.wf(),
            sub@.wf(),
            old(self)@.fits(sub@),
        ensures
            final(self)@ == old(self)@.absorb(sub@),
            final(self)@.wf(),
    {
        let at: usize = sub.rw_rows.start - self.rw_rows.start;
        let len: usize = sub.rw_rows.end - sub.rw_rows.start;
        let ghost before = self@;
        assert forall|c: int| 0 <= c < self.fixed@.len() implies at + len <= (
        #[trigger] self.fixed@[c])@.len() by {
            assert(grid_view(self.fixed)[c].len() >= self.rw_rows.end - self.rw_rows.start);
        }
        assert forall|c: int| 0 <= c < self.selectors@.len() implies at + len <= (
        #[trigger] self.selectors@[c])@.len() by {
            assert(grid_view(self.selectors)[c].len() >= self.rw_rows.end - self.rw_rows.start);
        }
        assert forall|c: int| 0 <= c < sub.fixed@.len() implies len <= (
        #[trigger] sub.fixed@[c])@.len() by {
            assert(grid_view(sub.fixed)[c].len() >= len);
        }
        assert forall|c: int| 0 <= c < sub.selectors@.len() implies len <= (
        #[trigger] sub.selectors@[c])@.len() by {
            assert(grid_view(sub.selectors)[c].len() >= len);
        }
        write_window(&mut self.fixed, at, &sub.fixed, len);
        write_window(&mut self.selectors, at, &sub.selectors, len);
        let ghost written = self@;
        assert(written.wf());
        let mut j: usize = 0;
        assert(written.record_all(sub.copies@.subrange(0, 0)) =~~= written);
        while j < sub.copies.len()
            invariant
                j <= sub.copies@.len(),
                self@ == written.record_all(sub.copies@.subrange(0, j as int)),
            decreases sub.copies@.len() - j,
        {
            self.record(sub.copies[j]);
            j = j + 1;
            assert(sub.copies@.subrange(0, j as int) =~= sub.copies@.subrange(0, j - 1).push(
                sub.copies@[j - 1],
            ));
            assert(self@ =~~= written.record_all(sub.copies@.subrange(0, j as int)));
        }
        assert(sub.copies@.subrange(0, j as int) =~= sub.copies@);
        assert(written =~~= (AssemblyView {
            fixed: Seq::new(
                before.fixed.len(),
                |c: int| overlay(before.fixed[c], at as int, sub@.fixed[c].subrange(0, len as int)),
            ),
            selectors: Seq::new(
                before.selectors.len(),
                |c: int|
                    overlay(before.selectors[c], at as int, sub@.selectors[c].subrange(0, len as int)),
            ),
            ..before
        }));
    }

    /// Merges the contexts that were forked from this one back: takes back
    /// the rows of each, and replays its equality constraints, context by
    /// context in the order given, and within a context in the order in
    /// which they were registered.
    ///
    /// Forks may be nested. A context that was forked itself has no builder:
    /// it keeps the constraints of the contexts that are merged into it in
    /// its own buffer, after its own, and they reach the builder when it is
    /// merged in its turn.
    ///
    /// Fails with `Synthesis`, before anything is changed, when a context
    /// does not lie within the window of this one or has other columns.
    pub fn merge(&mut self, sub_cs: Vec<Assembly<F>>) -> (r: Result<(), Error>)
        requires
            old(self)@.wf(),
            forall|i: int| 0 <= i < sub_cs@.len() ==> (#[trigger] sub_cs@[i])@.wf(),
        ensures
            final(self)@.wf(),
            final(self)@.same_frame(old(self)@),
            stepped(old(self)@, final(self)@, r, old(self)@.merge(assembly_views(sub_cs@))),
    {
        let ghost subs = assembly_views(sub_cs@);
        let mut i: usize = 0;
        while i < sub_cs.len()
            invariant
                subs == assembly_views(sub_cs@),
                i <= sub_cs@.len(),
                *self == *old(self),
                self@.wf(),
                forall|j: int| 0 <= j < i ==> self@.fits(#[trigger] subs[j]),
            decreases sub_cs@.len() - i,
        {
            if !self.fits(&sub_cs[i]) {
                assert(!self@.fits(subs[i as int]));
                return Err(Error::Synthesis);
            }
            i = i + 1;
        }
        let mut i: usize = 0;
        assert(subs.subrange(0, 0) =~= Seq::empty());
        while i < sub_cs.len()
            invariant
                subs == assembly_views(sub_cs@),
                i <= sub_cs@.len(),
                old(self)@.wf(),
                self@.wf(),
                forall|j: int| 0 <= j < sub_cs@.len() ==> (#[trigger] sub_cs@[j])@.wf(),
                forall|j: int| 0 <= j < subs.len() ==> old(self)@.fits(#[trigger] subs[j]),
                forall|j: int| 0 <= j < subs.len() ==> self@.fits(#[trigger] subs[j]),
                self@.same_frame(old(self)@),
                self@ == old(self)@.absorb_all(subs.subrange(0, i as int)),
            decreases sub_cs@.len() - i,
        {
            assert(self@.fits(subs[i as int]));
            self.absorb(&sub_cs[i]);
            i = i + 1;
            assert(subs.subrange(0, i as int).drop_last() =~= subs.subrange(0, i - 1));
            assert(subs.subrange(0, i as int).last() == subs[i - 1]);
        }
        assert(subs.subrange(0, i as int) =~= subs);
        Ok(())
    }
}

impl<F: Copy> Assembly<F> {
    /// Switches `selector` on at `row`.
    ///
    /// Fails with `NotEnoughRowsAvailable` when the row is not usable, with
    /// `Synthesis` when it lies outside the window of this context, and with
    /// `BoundsFailure` when there is no such selector.
    pub fn enable_selector(&mut self, selector: &Selector, row: usize) -> (r: Result<(), Error>)
        requires
            old(self)@.wf(),
        ensures
            final(self)@.wf(),
            stepped(old(self)@, final(self)@, r, old(self)@.enable_selector(*selector, row)),
    {
        if !(self.usable_rows.start <= row && row < self.usable_rows.end) {
            return Err(Error::not_enough_rows_available(self.k));
        }
        if !(self.rw_rows.start <= row && row < self.rw_rows.end) {
            return Err(Error::Synthesis);
        }
        if selector.0 >= self.selectors.len() {
            return Err(Error::BoundsFailure);
        }
        assert(grid_view(self.selectors)[selector.0 as int].len() >= self.rw_rows.end
            - self.rw_rows.start);
        set_cell(&mut self.selectors, selector.0, row - self.rw_rows.start, true);
        Ok(())
    }

    /// Reads an advice cell. Key generation stores no advice: the answer is
    /// always zero.
    pub fn query_advice(&self, column: Column<Advice>, row: usize) -> (r: Result<
        Assigned<F>,
        Error,
    >)
        ensures
            r == Ok::<Assigned<F>, Error>(Assigned::Zero),
    {
        Ok(Assigned::Zero)
    }

    /// Reads the fixed cell at `column` and `row`.
    ///
    /// Fails with `NotEnoughRowsAvailable` when the row is not usable, with
    /// `Synthesis` when it lies outside the window of this context, and with
    /// `BoundsFailure` when there is no such column.
    pub fn query_fixed(&self, column: Column<Fixed>, row: usize) -> (r: Result<Assigned<F>, Error>)
        requires
            self@.wf(),
        ensures
            r == self@.query_fixed(column, row),
    {
        if !(self.usable_rows.start <= row && row < self.usable_rows.end) {
            return Err(Error::not_enough_rows_available(self.k));
        }
        if !(self.rw_rows.start <= row && row < self.rw_rows.end) {
            return Err(Error::Synthesis);
        }
        if column.index >= self.fixed.len() {
            return Err(Error::BoundsFailure);
        }
        assert(grid_view(self.fixed)[column.index as int].len() >= self.rw_rows.end
            - self.rw_rows.start);
        Ok(self.fixed[column.index][row - self.rw_rows.start])
    }

    /// Reads an instance cell. Key generation knows no instance: the answer
    /// is unknown for every usable row, and `NotEnoughRowsAvailable` for any
    /// other.
    pub fn query_instance(&self, column: Column<Instance>, row: usize) -> (r: Result<
        Value<F>,
        Error,
    >)
        ensures
            r == self@.query_instance(row),
    {
        if !(self.usable_rows.start <= row && row < self.usable_rows.end) {
            return Err(Error::not_enough_rows_available(self.k));
        }
        Ok(Value::unknown())
    }

    /// Assigns an advice cell. Key generation stores no advice: nothing
    /// changes, whatever the column, the row and the value.
    pub fn assign_advice(
        &mut self,
        column: Column<Advice>,
        row: usize,
        to: Value<Assigned<F>>,
    ) -> (r:
        Result<(), Error>)
        ensures
            r is Ok,
            *final(self) == *old(self),
    {
        Ok(())
    }

    /// Writes `to` to the fixed cell at `column` and `row`.
    ///
    /// Fails with `NotEnoughRowsAvailable` when the row is not usable, with
    /// `Synthesis` when it lies outside the window of this context or the
    /// value is unknown, and with `BoundsFailure` when there is no such
    /// column.
    pub fn assign_fixed(&mut self, column: Column<Fixed>, row: usize, to: Value<Assigned<F>>) -> (r:
        Result<(), Error>)
        requires
            old(self)@.wf(),
        ensures
            final(self)@.wf(),
            stepped(old(self)@, final(self)@, r, old(self)@.assign_fixed(column, row, to)),
    {
        if !(self.usable_rows.start <= row && row < self.usable_rows.end) {
            return Err(Error::not_enough_rows_available(self.k));
        }
        if !(self.rw_rows.start <= row && row < self.rw_rows.end) {
            return Err(Error::Synthesis);
        }
        let value = to.assign()?;
        if column.index >= self.fixed.len() {
            return Err(Error::BoundsFailure);
        }
        assert(grid_view(self.fixed)[column.index as int].len() >= self.rw_rows.end
            - self.rw_rows.start);
        set_cell(&mut self.fixed, column.index, row - self.rw_rows.start, value);
        Ok(())
    }

    /// Records an equality constraint without looking at its rows: with the
    /// builder where one is attached, in the buffer otherwise.
    fn record(&mut self, copy: Equality)
        ensures
            final(self)@ == old(self)@.record(copy),
    {
        match &mut self.permutation {
            Some(permutation) => {
                let _ = permutation.copy(copy.0.column, copy.0.row, copy.1.column, copy.1.row);
            },
            None => {
                self.copies.push(copy);
            },
        }
    }

    /// Constrains the two positions to hold equal values.
    ///
    /// Fails with `NotEnoughRowsAvailable` when one of the rows is not
    /// usable. Otherwise the constraint goes to the permutation builder, or,
    /// in a forked context, to the end of the buffer that a merge replays.
    pub fn copy(
        &mut self,
        left_column: Column<Any>,
        left_row: usize,
        right_column: Column<Any>,
        right_row: usize,
    ) -> (r: Result<(), Error>)
        requires
            old(self)@.wf(),
        ensures
            final(self)@.wf(),
            stepped(
                old(self)@,
                final(self)@,
                r,
                old(self)@.copy(left_column, left_row, right_column, right_row),
            ),
    {
        if !(self.usable_rows.start <= left_row && left_row < self.usable_rows.end) || !(
        self.usable_rows.start <= right_row && right_row < self.usable_rows.end) {
            return Err(Error::not_enough_rows_available(self.k));
        }
        self.record(
            (
                CopyCell { column: left_column, row: left_row },
                CopyCell { column: right_column, row: right_row },
            ),
        );
        Ok(())
    }

    /// Writes `to` to every row of `column` from `from_row` on that this
    /// context may write.
    ///
    /// Fails with `NotEnoughRowsAvailable` when `from_row` is not usable,
    /// with `BoundsFailure` when there is no such column, and with
    /// `Synthesis` when the value is unknown.
    pub fn fill_from_row(
        &mut self,
        column: Column<Fixed>,
        from_row: usize,
        to: Value<Assigned<F>>,
    ) -> (r:
        Result<(), Error>)
        requires
            old(self)@.wf(),
        ensures
            final(self)@.wf(),
            stepped(old(self)@, final(self)@, r, old(self)@.fill_from_row(column, from_row, to)),
    {
        if !(self.usable_rows.start <= from_row && from_row < self.usable_rows.end) {
            return Err(Error::not_enough_rows_available(self.k));
        }
        if column.index >= self.fixed.len() {
            return Err(Error::BoundsFailure);
        }
        let filler = to.assign()?;
        let start: usize = self.rw_rows.start;
        let end: usize = self.rw_rows.end;
        let mut row: usize = if from_row > start { from_row } else { start };
        if row > end {
            row = end;
        }
        let ghost before = self@;
        let ghost col = before.fixed[column.index as int];
        assert(grid_view(self.fixed) =~~= before.fixed.update(
            column.index as int,
            Seq::new(col.len(), |i: int| if from_row <= start + i < row { filler } else { col[i] }),
        ));
        while row < end
            invariant
                before.wf(),
                col == before.fixed[column.index as int],
                column.index < before.fixed.len(),
                start == before.rw_rows.start,
                end == before.rw_rows.end,
                start <= row <= end,
                from_row <= row || row == end,
                grid_view(self.fixed) == before.fixed.update(
                    column.index as int,
                    Seq::new(
                        col.len(),
                        |i: int| if from_row <= start + i < row { filler } else { col[i] },
                    ),
                ),
                self@ == (AssemblyView { fixed: grid_view(self.fixed), ..before }),
            decreases end - row,
        {
            let ghost grid = grid_view(self.fixed);
            assert(grid.len() == before.fixed.len());
            assert(grid[column.index as int].len() == col.len());
            set_cell(&mut self.fixed, column.index, row - start, filler);
            row = row + 1;
            assert(grid_view(self.fixed) =~~= before.fixed.update(
                column.index as int,
                Seq::new(
                    col.len(),
                    |i: int| if from_row <= start + i < row { filler } else { col[i] },
                ),
            ));
        }
        assert(Seq::new(
            col.len(),
            |i: int| if from_row <= start + i < row { filler } else { col[i] },
        ) =~= before.filled(col, from_row, filler));
        Ok(())
    }

    /// The size parameter of the grid.
    pub fn k(&self) -> (k: u32)
        ensures
            k == self@.k,
    {
        self.k
    }

    /// The rows that this context may read and write.
    pub fn rw_rows(&self) -> (rows: Range<usize>)
        ensures
            rows == self@.rw_rows,
    {
        self.rw_rows.start..self.rw_rows.end
    }

    /// The rows that can be assigned at all.
    pub fn usable_rows(&self) -> (rows: Range<usize>)
        ensures
            rows == self@.usable_rows,
    {
        self.usable_rows.start..self.usable_rows.end
    }

    /// Takes the assembly apart: the fixed columns, the selectors, and the
    /// permutation builder, if one is attached.
    pub fn into_parts(self) -> (parts: (
        Vec<Vec<Assigned<F>>>,
        Vec<Vec<bool>>,
        Option<permutation::Assembly>,
    ))
        ensures
            grid_view(parts.0) == self@.fixed,
            grid_view(parts.1) == self@.selectors,
            match self@.permutation {
                Some(p) => parts.2 matches Some(builder) && builder@ == p,
                None => parts.2 is None,
            },
    {
        (self.fixed, self.selectors, self.permutation)
    }

    /// Marks the start of a region. Key generation keeps no record of regions.
    pub fn enter_region(&mut self, name: &str)
        ensures
            *final(self) == *old(self),
    {
    }

    /// Marks the end of a region. Key generation keeps no record of regions.
    pub fn exit_region(&mut self)
        ensures
            *final(self) == *old(self),
    {
    }

    /// Names a column. Key generation keeps no names.
    pub fn annotate_column(&mut self, annotation: &str, column: Column<Any>)
        ensures
            *final(self) == *old(self),
    {
    }

    /// Opens a namespace. Key generation keeps no namespaces.
    pub fn push_namespace(&mut self, name: &str)
        ensures
            *final(self) == *old(self),
    {
    }

    /// Closes the innermost namespace. Key generation keeps no namespaces.
    pub fn pop_namespace(&mut self, gadget_name: Option<String>)
        ensures
            *final(self) == *old(self),
    {
    }

    /// A challenge of the verifier: key generation knows none.
    pub fn get_challenge(&self, challenge: Challenge) -> (v: Value<F>)
        ensures
            v.inner is None,
    {
        Value::unknown()
    }
}


/// The equality constraints that the contexts `subs` have kept, context by
/// context.
pub open spec fn kept_copies<F>(subs: Seq<AssemblyView<F>>) -> Seq<Equality>
    decreases subs.len(),
{
    if subs.len() == 0 {
        Seq::empty()
    } else {
        kept_copies(subs.drop_last()) + subs.last().copies
    }
}

impl<F> AssemblyView<F> {
    /// Taking a context back keeps the frame and the order of the equality
    /// constraints: those that the context kept follow those that were
    /// recorded before.
    pub proof fn lemma_absorb(self, sub: Self)
        requires
            self.wf(),
            sub.wf(),
            self.fits(sub),
        ensures
            self.absorb(sub).wf(),
            self.absorb(sub).same_frame(self),
            self.absorb(sub).equalities() == self.equalities() + sub.copies,
    {
    }

    /// A merge replays the equality constraints of the contexts in the order
    /// of the contexts, after those that were recorded before, and keeps the
    /// frame.
    pub proof fn lemma_absorb_all(self, subs: Seq<Self>)
        requires
            self.wf(),
            forall|i: int| 0 <= i < subs.len() ==> (#[trigger] subs[i]).wf() && self.fits(subs[i]),
        ensures
            self.absorb_all(subs).wf(),
            self.absorb_all(subs).same_frame(self),
            self.absorb_all(subs).equalities() == self.equalities() + kept_copies(subs),
        decreases subs.len(),
    {
        if subs.len() > 0 {
            let front = subs.drop_last();
            assert forall|i: int| 0 <= i < front.len() implies (#[trigger] front[i]).wf()
                && self.fits(front[i]) by {
                assert(front[i] == subs[i]);
            }
            self.lemma_absorb_all(front);
            assert(subs[subs.len() - 1] == subs.last());
            self.absorb_all(front).lemma_absorb(subs.last());
            assert(self.absorb_all(subs).equalities() =~= self.equalities() + kept_copies(subs));
        } else {
            assert(self.equalities() + kept_copies(subs) =~= self.equalities());
        }
    }
}

} // verus!
