//! Where regions go: each at the first row at which all of its columns are
//! free. Rows are claimed in the order in which regions are created, and
//! never given back.

use vstd::prelude::*;
use std::collections::HashMap;
use crate::cell::RegionIndex;
use crate::column::RegionColumn;
use crate::shape::{RegionOp, RegionShape, ShapeView};

verus! {

broadcast use vstd::std_specs::hash::group_hash_axioms;

/// The first row of `column` that nothing has claimed: zero for a column that
/// the map does not know.
pub open spec fn first_free(occupancy: Map<RegionColumn, nat>, column: RegionColumn) -> nat {
    if occupancy.contains_key(column) {
        occupancy[column]
    } else {
        0
    }
}

/// The largest first free row among `columns`, or zero where there is no
/// column: the first row at which all of `columns` are free.
pub open spec fn start_row(occupancy: Map<RegionColumn, nat>, columns: Seq<RegionColumn>) -> nat
    decreases columns.len(),
{
    if columns.len() == 0 {
        0
    } else {
        let rest = start_row(occupancy, columns.drop_last());
        let last = first_free(occupancy, columns.last());
        if last > rest {
            last
        } else {
            rest
        }
    }
}

/// The map after every row of `columns` below `row` is claimed.
pub open spec fn claim(
    occupancy: Map<RegionColumn, nat>,
    columns: Seq<RegionColumn>,
    row: nat,
) -> Map<
    RegionColumn,
    nat,
> {
    Map::new(
        |c: RegionColumn| occupancy.contains_key(c) || columns.contains(c),
        |c: RegionColumn|
            if columns.contains(c) {
                row
            } else {
                occupancy[c]
            },
    )
}

/// The map after a region of shape `shape` is placed at its start row.
pub open spec fn place(
    occupancy: Map<RegionColumn, nat>,
    shape: ShapeView,
) -> Map<RegionColumn, nat> {
    claim(occupancy, shape.columns, start_row(occupancy, shape.columns) + shape.row_count)
}

/// The start rows of regions of the shapes `shapes`, placed one after the
/// other in this order.
pub open spec fn start_rows(occupancy: Map<RegionColumn, nat>, shapes: Seq<ShapeView>) -> Seq<nat>
    decreases shapes.len(),
{
    if shapes.len() == 0 {
        Seq::empty()
    } else {
        start_rows(occupancy, shapes.drop_last()).push(
            start_row(place_all(occupancy, shapes.drop_last()), shapes.last().columns),
        )
    }
}

/// The map after regions of the shapes `shapes` are placed one after the
/// other in this order.
pub open spec fn place_all(occupancy: Map<RegionColumn, nat>, shapes: Seq<ShapeView>) -> Map<
    RegionColumn,
    nat,
>
    decreases shapes.len(),
{
    if shapes.len() == 0 {
        occupancy
    } else {
        place(place_all(occupancy, shapes.drop_last()), shapes.last())
    }
}

/// The start row is the maximum of the first free rows of the columns: none
/// of them is free later, and one of them is free exactly there, unless there
/// is no column or all are free from row zero.
pub proof fn lemma_start_row(occupancy: Map<RegionColumn, nat>, columns: Seq<RegionColumn>)
    ensures
        forall|c: RegionColumn|
            columns.contains(c) ==> first_free(occupancy, c) <= start_row(occupancy, columns),
        start_row(occupancy, columns) == 0 || exists|c: RegionColumn|
            columns.contains(c) && first_free(occupancy, c) == start_row(occupancy, columns),
    decreases columns.len(),
{
    if columns.len() > 0 {
        let front = columns.drop_last();
        lemma_start_row(occupancy, front);
        assert forall|c: RegionColumn| columns.contains(c) implies first_free(occupancy, c)
            <= start_row(occupancy, columns) by {
            let i = choose|i: int| 0 <= i < columns.len() && columns[i] == c;
            if i < columns.len() - 1 {
                assert(front[i] == c);
                assert(front.contains(c));
            } else {
                assert(columns.last() == c);
            }
        }
        if start_row(occupancy, columns) != 0 {
            if first_free(occupancy, columns.last()) > start_row(occupancy, front) {
                assert(columns[columns.len() - 1] == columns.last());
            } else {
                let c = choose|c: RegionColumn|
                    front.contains(c) && first_free(occupancy, c) == start_row(occupancy, front);
                let i = choose|i: int| 0 <= i < front.len() && front[i] == c;
                assert(columns[i] == c);
            }
        }
    }
}

/// The start row looks only at the columns given: two maps that agree on
/// them give the same start row.
pub proof fn lemma_start_row_local(
    a: Map<RegionColumn, nat>,
    b: Map<RegionColumn, nat>,
    columns: Seq<RegionColumn>,
)
    requires
        forall|c: RegionColumn| columns.contains(c) ==> first_free(a, c) == first_free(b, c),
    ensures
        start_row(a, columns) == start_row(b, columns),
    decreases columns.len(),
{
    if columns.len() > 0 {
        let front = columns.drop_last();
        assert forall|c: RegionColumn| front.contains(c) implies first_free(a, c) == first_free(
            b,
            c,
        ) by {
            let i = choose|i: int| 0 <= i < front.len() && front[i] == c;
            assert(columns[i] == c);
        }
        lemma_start_row_local(a, b, front);
        assert(columns[columns.len() - 1] == columns.last());
    }
}

/// Placing a region never frees a row: every first free row stays or grows.
/// The columns of the region are then free from the end of the region on,
/// and the other columns are free from where they were.
pub proof fn lemma_place(occupancy: Map<RegionColumn, nat>, shape: ShapeView)
    ensures
        forall|c: RegionColumn|
            first_free(occupancy, c) <= #[trigger] first_free(place(occupancy, shape), c),
        forall|c: RegionColumn|
            shape.columns.contains(c) ==> #[trigger] first_free(place(occupancy, shape), c)
                == start_row(occupancy, shape.columns) + shape.row_count,
        forall|c: RegionColumn|
            !shape.columns.contains(c) ==> #[trigger] first_free(place(occupancy, shape), c)
                == first_free(occupancy, c),
{
    lemma_start_row(occupancy, shape.columns);
}

/// Placing regions never frees a row.
pub proof fn lemma_place_all_grows(occupancy: Map<RegionColumn, nat>, shapes: Seq<ShapeView>)
    ensures
        start_rows(occupancy, shapes).len() == shapes.len(),
        forall|c: RegionColumn|
            first_free(occupancy, c) <= #[trigger] first_free(place_all(occupancy, shapes), c),
    decreases shapes.len(),
{
    if shapes.len() > 0 {
        lemma_place_all_grows(occupancy, shapes.drop_last());
        lemma_place(place_all(occupancy, shapes.drop_last()), shapes.last());
    }
}

/// After regions are placed, each column of each of them is free at the
/// earliest from the end of that region on.
proof fn lemma_placed_rows_stay_claimed(
    occupancy: Map<RegionColumn, nat>,
    shapes: Seq<ShapeView>,
    i: int,
    c: RegionColumn,
)
    requires
        0 <= i < shapes.len(),
        shapes[i].columns.contains(c),
    ensures
        start_rows(occupancy, shapes).len() == shapes.len(),
        start_rows(occupancy, shapes)[i] + shapes[i].row_count <= first_free(
            place_all(occupancy, shapes),
            c,
        ),
    decreases shapes.len(),
{
    let front = shapes.drop_last();
    lemma_place_all_grows(occupancy, shapes);
    lemma_place_all_grows(occupancy, front);
    lemma_place(place_all(occupancy, front), shapes.last());
    if i < shapes.len() - 1 {
        lemma_placed_rows_stay_claimed(occupancy, front, i, c);
    }
}

/// No two regions claim the same row of the same column: where two regions
/// use a column in common, the later one starts at the earliest where the
/// earlier one ends.
pub proof fn lemma_regions_do_not_collide(
    occupancy: Map<RegionColumn, nat>,
    shapes: Seq<ShapeView>,
    i: int,
    j: int,
    c: RegionColumn,
)
    requires
        0 <= i < j < shapes.len(),
        shapes[i].columns.contains(c),
        shapes[j].columns.contains(c),
    ensures
        start_rows(occupancy, shapes).len() == shapes.len(),
        start_rows(occupancy, shapes)[i] + shapes[i].row_count <= start_rows(occupancy, shapes)[j],
    decreases shapes.len(),
{
    let front = shapes.drop_last();
    lemma_place_all_grows(occupancy, shapes);
    lemma_place_all_grows(occupancy, front);
    if j < shapes.len() - 1 {
        lemma_regions_do_not_collide(occupancy, front, i, j, c);
    } else {
        lemma_placed_rows_stay_claimed(occupancy, front, i, c);
        lemma_start_row(place_all(occupancy, front), shapes.last().columns);
    }
}

/// No two regions write to the same row of the same column: where a step of
/// a region and a step of a later region use the same column, the row of the
/// first lies before the row of the second.
pub proof fn lemma_writes_do_not_collide<F>(
    occupancy: Map<RegionColumn, nat>,
    scripts: Seq<Seq<RegionOp<F>>>,
    i: int,
    j: int,
    a: int,
    b: int,
)
    requires
        0 <= i < j < scripts.len(),
        0 <= a < scripts[i].len(),
        0 <= b < scripts[j].len(),
        scripts[i][a].column() is Some,
        scripts[i][a].column() == scripts[j][b].column(),
    ensures
        ({
            let shapes = Seq::new(
                scripts.len(),
                |k: int| ShapeView::of(RegionIndex(k as usize), scripts[k]),
            );
            let starts = start_rows(occupancy, shapes);
            &&& starts.len() == scripts.len()
            &&& starts[i] + scripts[i][a].offset()->0 < starts[j] + scripts[j][b].offset()->0
        }),
{
    let shapes = Seq::new(
        scripts.len(),
        |k: int| ShapeView::of(RegionIndex(k as usize), scripts[k]),
    );
    let column = scripts[i][a].column()->0;
    ShapeView::empty(RegionIndex(i as usize)).lemma_covers(scripts[i]);
    ShapeView::empty(RegionIndex(j as usize)).lemma_covers(scripts[j]);
    let _ = scripts[i][a].touches();
    let _ = scripts[j][b].touches();
    lemma_regions_do_not_collide(occupancy, shapes, i, j, column);
}

/// Regions that use a column in common start in the order in which they
/// were created.
pub proof fn lemma_shared_columns_order_starts(
    occupancy: Map<RegionColumn, nat>,
    shapes: Seq<ShapeView>,
    i: int,
    j: int,
    c: RegionColumn,
)
    requires
        0 <= i < j < shapes.len(),
        shapes[i].columns.contains(c),
        shapes[j].columns.contains(c),
    ensures
        start_rows(occupancy, shapes).len() == shapes.len(),
        start_rows(occupancy, shapes)[i] <= start_rows(occupancy, shapes)[j],
{
    lemma_regions_do_not_collide(occupancy, shapes, i, j, c);
}

/// After regions are placed, a column that none of them uses is free from
/// where it was.
proof fn lemma_unused_column_stays(
    occupancy: Map<RegionColumn, nat>,
    shapes: Seq<ShapeView>,
    c: RegionColumn,
)
    requires
        forall|i: int| 0 <= i < shapes.len() ==> !(#[trigger] shapes[i]).columns.contains(c),
    ensures
        first_free(place_all(occupancy, shapes), c) == first_free(occupancy, c),
    decreases shapes.len(),
{
    if shapes.len() > 0 {
        let front = shapes.drop_last();
        assert forall|i: int| 0 <= i < front.len() implies !(#[trigger] front[i]).columns.contains(
            c,
        ) by {
            assert(front[i] == shapes[i]);
        }
        lemma_unused_column_stays(occupancy, front, c);
        lemma_place(place_all(occupancy, front), shapes.last());
        assert(shapes[shapes.len() - 1] == shapes.last());
    }
}

/// A region whose columns no earlier region uses starts where its columns
/// were free at the outset, however many regions were created before it: at
/// row zero on a grid that was empty.
pub proof fn lemma_unrelated_region_starts_afresh(
    occupancy: Map<RegionColumn, nat>,
    shapes: Seq<ShapeView>,
    j: int,
)
    requires
        0 <= j < shapes.len(),
        forall|i: int, c: RegionColumn|
            0 <= i < j && shapes[j].columns.contains(c) ==> !(#[trigger] shapes[i].columns.contains(
                c,
            )),
    ensures
        start_rows(occupancy, shapes).len() == shapes.len(),
        start_rows(occupancy, shapes)[j] == start_row(occupancy, shapes[j].columns),
        occupancy == Map::<RegionColumn, nat>::empty() ==> start_rows(occupancy, shapes)[j] == 0,
    decreases shapes.len(),
{
    let front = shapes.drop_last();
    lemma_place_all_grows(occupancy, shapes);
    lemma_place_all_grows(occupancy, front);
    if j < shapes.len() - 1 {
        lemma_unrelated_region_starts_afresh(occupancy, front, j);
    } else {
        let columns = shapes[j].columns;
        assert forall|c: RegionColumn| columns.contains(c) implies first_free(
            place_all(occupancy, front),
            c,
        ) == first_free(occupancy, c) by {
            assert forall|i: int| 0 <= i < front.len() implies !(
            #[trigger] front[i]).columns.contains(c) by {
                assert(!shapes[i].columns.contains(c));
            }
            lemma_unused_column_stays(occupancy, front, c);
        }
        lemma_start_row_local(place_all(occupancy, front), occupancy, columns);
    }
    if occupancy == Map::<RegionColumn, nat>::empty() {
        lemma_start_row(occupancy, shapes[j].columns);
    }
}

/// For each column, the first row that no region has claimed. Rows are only
/// ever claimed, never freed.
#[derive(Clone, Debug)]
pub struct ColumnOccupancy {
    first_free: HashMap<u128, usize>,
}

impl View for ColumnOccupancy {
    type V = Map<RegionColumn, nat>;

    closed spec fn view(&self) -> Map<RegionColumn, nat> {
        Map::new(
            |c: RegionColumn| self.first_free@.contains_key(c.spec_key()),
            |c: RegionColumn| self.first_free@[c.spec_key()] as nat,
        )
    }
}

impl ColumnOccupancy {
    /// The occupancy of an empty grid.
    pub fn new() -> (occupancy: Self)
        ensures
            occupancy@ == Map::<RegionColumn, nat>::empty(),
    {
        let occupancy = ColumnOccupancy { first_free: HashMap::new() };
        assert(occupancy@ =~= Map::<RegionColumn, nat>::empty());
        occupancy
    }

    /// The machine can number the first free row of every column.
    pub proof fn lemma_rows_numbered(&self)
        ensures
            forall|c: RegionColumn| #[trigger] first_free(self@, c) <= usize::MAX,
    {
    }

    /// A copy of this map.
    pub fn copy(&self) -> (occupancy: Self)
        ensures
            occupancy@ == self@,
    {
        ColumnOccupancy { first_free: self.first_free.clone() }
    }

    /// The first free row of `column`.
    pub fn get(&self, column: &RegionColumn) -> (row: usize)
        ensures
            row == first_free(self@, *column),
    {
        let key = column.key();
        match self.first_free.get(&key) {
            Some(row) => *row,
            None => 0,
        }
    }

    /// Sets the first free row of `column` to `row`.
    pub fn set(&mut self, column: RegionColumn, row: usize)
        ensures
            final(self)@ == old(self)@.insert(column, row as nat),
    {
        let key = column.key();
        self.first_free.insert(key, row);
        assert(self@ =~= old(self)@.insert(column, row as nat)) by {
            assert forall|c: RegionColumn| c != column implies c.spec_key() != column.spec_key() by {
                if c.spec_key() == column.spec_key() {
                    RegionColumn::lemma_key_injective(c, column);
                }
            }
        }
    }

    /// The first row at which all of `columns` are free: the largest of
    /// their first free rows, or zero where there is no column.
    pub fn start_row(&self, columns: &Vec<RegionColumn>) -> (row: usize)
        ensures
            row == start_row(self@, columns@),
            forall|c: RegionColumn| columns@.contains(c) ==> first_free(self@, c) <= row,
            row == 0 || exists|c: RegionColumn|
                columns@.contains(c) && first_free(self@, c) == row,
    {
        proof {
            lemma_start_row(self@, columns@);
        }
        let mut row: usize = 0;
        let mut i: usize = 0;
        assert(columns@.subrange(0, 0) =~= Seq::empty());
        while i < columns.len()
            invariant
                i <= columns@.len(),
                row == start_row(self@, columns@.subrange(0, i as int)),
            decreases columns@.len() - i,
        {
            let column_start = self.get(&columns[i]);
            if column_start > row {
                row = column_start;
            }
            i = i + 1;
            assert(columns@.subrange(0, i as int).drop_last() =~= columns@.subrange(0, i - 1));
        }
        assert(columns@.subrange(0, i as int) =~= columns@);
        row
    }

    /// Claims every row of `columns` below `row`.
    pub fn claim(&mut self, columns: &Vec<RegionColumn>, row: usize)
        ensures
            final(self)@ == claim(old(self)@, columns@, row as nat),
    {
        let mut i: usize = 0;
        assert(self@ =~= claim(old(self)@, columns@.subrange(0, 0), row as nat));
        while i < columns.len()
            invariant
                i <= columns@.len(),
                self@ == claim(old(self)@, columns@.subrange(0, i as int), row as nat),
            decreases columns@.len() - i,
        {
            self.set(columns[i], row);
            i = i + 1;
            assert(self@ =~= claim(old(self)@, columns@.subrange(0, i as int), row as nat)) by {
                let before = columns@.subrange(0, i - 1);
                let after = columns@.subrange(0, i as int);
                assert(after =~= before.push(columns@[i - 1]));
                assert forall|c: RegionColumn|
                    after.contains(c) <==> (before.contains(c) || c == columns@[i - 1]) by {
                    if before.contains(c) {
                        let k = choose|k: int| 0 <= k < before.len() && before[k] == c;
                        assert(after[k] == c);
                    }
                    if c == columns@[i - 1] {
                        assert(after[i - 1] == c);
                    }
                }
            }
        }
        assert(columns@.subrange(0, i as int) =~= columns@);
    }

    /// Places a region of shape `shape`: finds the first row at which all of
    /// its columns are free, and claims the rows of the region from there.
    /// Returns the start row.
    pub fn place(&mut self, shape: &RegionShape) -> (start: usize)
        requires
            start_row(old(self)@, shape@.columns) + shape@.row_count <= usize::MAX,
        ensures
            start == start_row(old(self)@, shape@.columns),
            final(self)@ == place(old(self)@, shape@),
            forall|c: RegionColumn|
                shape@.columns.contains(c) ==> first_free(old(self)@, c) <= start
                    && #[trigger] first_free(final(self)@, c) == start + shape@.row_count,
            forall|c: RegionColumn|
                !shape@.columns.contains(c) ==> #[trigger] first_free(final(self)@, c)
                    == first_free(old(self)@, c),
            start == 0 || exists|c: RegionColumn|
                shape@.columns.contains(c) && first_free(old(self)@, c) == start,
    {
        proof {
            lemma_start_row(self@, shape@.columns);
            lemma_place(self@, shape@);
        }
        let start = self.start_row(shape.columns());
        self.claim(shape.columns(), start + shape.row_count());
        start
    }
}

} // verus!
