//! The constants that regions ask for: they go to the first column for
//! constants, in the order of the requests.

use vstd::prelude::*;
use crate::assembly::{Assembly, AssemblyView};
use crate::cell::{CopyCell, Equality, RegionStart};
use crate::column::{Column, Fixed, RegionColumn};
use crate::error::Error;
use crate::occupancy::{first_free, ColumnOccupancy};
use crate::region::{cell_in_reach, global_row, ConstantRequest};
use crate::value::{Assigned, Value};

verus! {

/// Assigning the constants of `requests` to `column`, one to a row from the
/// row `cursor` on, and constraining each cell that asked for one to equal
/// the row of its constant. Stops at the first step that fails.
pub open spec fn assign_constants<F>(
    cs: AssemblyView<F>,
    column: Column<Fixed>,
    cursor: nat,
    regions: Seq<RegionStart>,
    requests: Seq<ConstantRequest<F>>,
) -> Result<AssemblyView<F>, Error>
    decreases requests.len(),
{
    if requests.len() == 0 {
        Ok(cs)
    } else {
        match assign_constants(cs, column, cursor, regions, requests.drop_last()) {
            Err(e) => Err(e),
            Ok(cs) => {
                let row = (cursor + requests.len() - 1) as usize;
                let (constant, cell) = requests.last();
                match cs.assign_fixed(column, row, Value { inner: Some(constant) }) {
                    Err(e) => Err(e),
                    Ok(cs) => cs.copy(
                        column.spec_any(),
                        row,
                        cell.column,
                        global_row(regions, cell),
                    ),
                }
            },
        }
    }
}

/// What the assembly holds once the constants of `requests` were to be
/// assigned: the constants before the first failure are assigned and tied to
/// their cells. Where it is the tying of a constant that fails, the constant
/// itself is assigned.
pub open spec fn after_assign_constants<F>(
    cs: AssemblyView<F>,
    column: Column<Fixed>,
    cursor: nat,
    regions: Seq<RegionStart>,
    requests: Seq<ConstantRequest<F>>,
) -> AssemblyView<F>
    decreases requests.len(),
{
    if requests.len() == 0 {
        cs
    } else {
        match assign_constants(cs, column, cursor, regions, requests.drop_last()) {
            Err(e) => after_assign_constants(cs, column, cursor, regions, requests.drop_last()),
            Ok(cs) => {
                let row = (cursor + requests.len() - 1) as usize;
                let (constant, cell) = requests.last();
                match cs.assign_fixed(column, row, Value { inner: Some(constant) }) {
                    Err(e) => cs,
                    Ok(assigned) => match assigned.copy(
                        column.spec_any(),
                        row,
                        cell.column,
                        global_row(regions, cell),
                    ) {
                        Err(e) => assigned,
                        Ok(tied) => tied,
                    },
                }
            },
        }
    }
}

/// The column that holds the constants, as the occupancy map knows it.
pub open spec fn constants_key(constants: Seq<Column<Fixed>>) -> RegionColumn {
    RegionColumn::Column(constants[0].spec_any())
}

/// Assigning the constants that regions have asked for.
///
/// Without a column for constants, any request is an error. Otherwise the
/// constants go to the first such column, in the order of the requests, from
/// the first free row of that column on, and the rows that they take are
/// claimed.
pub open spec fn consolidate<F>(
    cs: AssemblyView<F>,
    columns: Map<RegionColumn, nat>,
    regions: Seq<RegionStart>,
    constants: Seq<Column<Fixed>>,
    requests: Seq<ConstantRequest<F>>,
) -> Result<(AssemblyView<F>, Map<RegionColumn, nat>), Error> {
    if constants.len() == 0 {
        if requests.len() > 0 {
            Err(Error::NotEnoughColumnsForConstants)
        } else {
            Ok((cs, columns))
        }
    } else {
        let cursor = first_free(columns, constants_key(constants));
        match assign_constants(cs, constants[0], cursor, regions, requests) {
            Err(e) => Err(e),
            Ok(cs) => Ok((cs, columns.insert(constants_key(constants), cursor + requests.len()))),
        }
    }
}

/// What the assembly holds and which rows are claimed once the constants
/// that regions have asked for were to be assigned. Rows are claimed for
/// the constants only where all of them are assigned.
pub open spec fn after_consolidate<F>(
    cs: AssemblyView<F>,
    columns: Map<RegionColumn, nat>,
    regions: Seq<RegionStart>,
    constants: Seq<Column<Fixed>>,
    requests: Seq<ConstantRequest<F>>,
) -> (AssemblyView<F>, Map<RegionColumn, nat>) {
    match consolidate(cs, columns, regions, constants, requests) {
        Ok(done) => done,
        Err(e) => if constants.len() == 0 {
            (cs, columns)
        } else {
            (
                after_assign_constants(
                    cs,
                    constants[0],
                    first_free(columns, constants_key(constants)),
                    regions,
                    requests,
                ),
                columns,
            )
        },
    }
}

/// Whether the absolute row of every cell that asks for a constant can be
/// computed.
pub open spec fn requests_in_reach<F>(
    regions: Seq<RegionStart>,
    requests: Seq<ConstantRequest<F>>,
) -> bool {
    forall|i: int| 0 <= i < requests.len() ==> cell_in_reach(regions, (#[trigger] requests[i]).1)
}

/// Once a constant has failed, the constants after it are not assigned.
pub proof fn lemma_assign_constants_stops<F>(
    cs: AssemblyView<F>,
    column: Column<Fixed>,
    cursor: nat,
    regions: Seq<RegionStart>,
    requests: Seq<ConstantRequest<F>>,
    n: int,
)
    requires
        0 <= n <= requests.len(),
        assign_constants(cs, column, cursor, regions, requests.subrange(0, n)) is Err,
    ensures
        assign_constants(cs, column, cursor, regions, requests) == assign_constants(
            cs,
            column,
            cursor,
            regions,
            requests.subrange(0, n),
        ),
        after_assign_constants(cs, column, cursor, regions, requests) == after_assign_constants(
            cs,
            column,
            cursor,
            regions,
            requests.subrange(0, n),
        ),
    decreases requests.len() - n,
{
    if n < requests.len() {
        assert(requests.subrange(0, n + 1).drop_last() =~= requests.subrange(0, n));
        lemma_assign_constants_stops(cs, column, cursor, regions, requests, n + 1);
    } else {
        assert(requests.subrange(0, n) =~= requests);
    }
}

/// Assigns the constants that regions have asked for, as [`consolidate`]
/// says.
pub fn assign_constants_to_column<F: Copy>(
    cs: &mut Assembly<F>,
    columns: &mut ColumnOccupancy,
    regions: &Vec<RegionStart>,
    constants: &Vec<Column<Fixed>>,
    constants_to_assign: &Vec<ConstantRequest<F>>,
) -> (r: Result<(), Error>)
    requires
        old(cs)@.wf(),
        requests_in_reach(regions@, constants_to_assign@),
    ensures
        final(cs)@.wf(),
        final(cs)@.same_frame(old(cs)@),
        match consolidate(old(cs)@, old(columns)@, regions@, constants@, constants_to_assign@) {
            Ok((after, claimed)) => r is Ok && final(cs)@ == after && final(columns)@ == claimed,
            Err(e) => r == Err::<(), Error>(e),
        },
        (final(cs)@, final(columns)@) == after_consolidate(
            old(cs)@,
            old(columns)@,
            regions@,
            constants@,
            constants_to_assign@,
        ),
{
    if constants.len() == 0 {
        if constants_to_assign.len() > 0 {
            return Err(Error::NotEnoughColumnsForConstants);
        }
        return Ok(());
    }
    let constants_column = constants[0];
    let key = RegionColumn::Column(constants_column.any());
    let cursor = columns.get(&key);
    let mut next_constant_row: usize = cursor;
    let mut i: usize = 0;
    assert(constants_to_assign@.subrange(0, 0) =~= Seq::empty());
    while i < constants_to_assign.len()
        invariant
            i <= constants_to_assign@.len(),
            cs@.wf(),
            cs@.same_frame(old(cs)@),
            requests_in_reach(regions@, constants_to_assign@),
            constants@.len() > 0,
            constants_column == constants@[0],
            cursor == first_free(old(columns)@, constants_key(constants@)),
            next_constant_row == cursor + i,
            assign_constants(
                old(cs)@,
                constants_column,
                cursor as nat,
                regions@,
                constants_to_assign@.subrange(0, i as int),
            ) == Ok::<AssemblyView<F>, Error>(cs@),
        decreases constants_to_assign@.len() - i,
    {
        let (constant, advice) = constants_to_assign[i];
        assert(cell_in_reach(regions@, constants_to_assign@[i as int].1));
        assert(constants_to_assign@.subrange(0, i + 1).drop_last()
            =~= constants_to_assign@.subrange(0, i as int));
        assert(constants_to_assign@.subrange(0, i + 1).last() == (constant, advice));
        let ghost reached = cs@;
        let assigned = cs.assign_fixed(constants_column, next_constant_row, Value::known(constant));
        if let Err(e) = assigned {
            proof {
                assert(reached.assign_fixed(
                    constants_column,
                    next_constant_row,
                    Value { inner: Some(constant) },
                ) == Err::<AssemblyView<F>, Error>(e));
                lemma_assign_constants_stops(
                    old(cs)@,
                    constants_column,
                    cursor as nat,
                    regions@,
                    constants_to_assign@,
                    i + 1,
                );
            }
            return Err(e);
        }
        let row = regions[advice.region_index.0].0 + advice.row_offset;
        let copied = cs.copy(constants_column.any(), next_constant_row, advice.column, row);
        if let Err(e) = copied {
            proof {
                lemma_assign_constants_stops(
                    old(cs)@,
                    constants_column,
                    cursor as nat,
                    regions@,
                    constants_to_assign@,
                    i + 1,
                );
            }
            return Err(e);
        }
        next_constant_row = next_constant_row + 1;
        i = i + 1;
    }
    assert(constants_to_assign@.subrange(0, i as int) =~= constants_to_assign@);
    columns.set(key, next_constant_row);
    Ok(())
}

/// The equality constraints that tie the cells of `requests` to their
/// constants, where the constants take the rows of `column` from `cursor`
/// on.
pub open spec fn constant_copies<F>(
    column: Column<Fixed>,
    cursor: nat,
    regions: Seq<RegionStart>,
    requests: Seq<ConstantRequest<F>>,
) -> Seq<Equality> {
    Seq::new(
        requests.len(),
        |i: int|
            (
                CopyCell { column: column.spec_any(), row: (cursor + i) as usize },
                CopyCell {
                    column: requests[i].1.column,
                    row: global_row(regions, requests[i].1),
                },
            ),
    )
}

/// Assigning constants appends one equality constraint for each request, in
/// the order of the requests, and keeps the frame of the assembly. Constant
/// `i` takes row `cursor + i`.
pub proof fn lemma_assign_constants_effects<F>(
    cs: AssemblyView<F>,
    column: Column<Fixed>,
    cursor: nat,
    regions: Seq<RegionStart>,
    requests: Seq<ConstantRequest<F>>,
)
    requires
        cs.wf(),
    ensures
        assign_constants(cs, column, cursor, regions, requests) matches Ok(after) ==> {
            &&& after.wf()
            &&& after.same_frame(cs)
            &&& after.equalities() == cs.equalities() + constant_copies(
                column,
                cursor,
                regions,
                requests,
            )
        },
    decreases requests.len(),
{
    if requests.len() > 0 {
        let front = requests.drop_last();
        lemma_assign_constants_effects(cs, column, cursor, regions, front);
        if let Ok(after) = assign_constants(cs, column, cursor, regions, requests) {
            let before = assign_constants(cs, column, cursor, regions, front)->Ok_0;
            assert(after.equalities() =~= cs.equalities() + constant_copies(
                column,
                cursor,
                regions,
                requests,
            )) by {
                assert(constant_copies(column, cursor, regions, requests) =~= constant_copies(
                    column,
                    cursor,
                    regions,
                    front,
                ).push(constant_copies(column, cursor, regions, requests).last()));
            }
        }
    } else {
        assert(cs.equalities() + constant_copies(column, cursor, regions, requests)
            =~= cs.equalities());
    }
}

/// Whether constants can be assigned depends on the frame of the assembly
/// alone, not on what it holds.
pub proof fn lemma_assign_constants_by_frame<F>(
    a: AssemblyView<F>,
    b: AssemblyView<F>,
    column: Column<Fixed>,
    cursor: nat,
    regions_a: Seq<RegionStart>,
    regions_b: Seq<RegionStart>,
    requests: Seq<ConstantRequest<F>>,
)
    requires
        a.wf(),
        b.wf(),
        a.same_frame(b),
        assign_constants(a, column, cursor, regions_a, requests) is Ok,
        forall|i: int|
            0 <= i < requests.len() ==> global_row(regions_a, (#[trigger] requests[i]).1)
                == global_row(regions_b, requests[i].1),
    ensures
        assign_constants(b, column, cursor, regions_b, requests) is Ok,
        constant_copies(column, cursor, regions_a, requests) == constant_copies(
            column,
            cursor,
            regions_b,
            requests,
        ),
    decreases requests.len(),
{
    if requests.len() > 0 {
        let front = requests.drop_last();
        assert forall|i: int| 0 <= i < front.len() implies global_row(
            regions_a,
            (#[trigger] front[i]).1,
        ) == global_row(regions_b, front[i].1) by {
            assert(front[i] == requests[i]);
        }
        lemma_assign_constants_by_frame(a, b, column, cursor, regions_a, regions_b, front);
        lemma_assign_constants_effects(a, column, cursor, regions_a, front);
        lemma_assign_constants_effects(b, column, cursor, regions_b, front);
        assert(requests[requests.len() - 1] == requests.last());
    }
    assert(constant_copies(column, cursor, regions_a, requests) =~= constant_copies(
        column,
        cursor,
        regions_b,
        requests,
    ));
}

/// Assigning the constants of two lists of requests, one after the other,
/// is assigning the constants of the first list, and then those of the
/// second from the row after them on.
pub proof fn lemma_assign_constants_split<F>(
    cs: AssemblyView<F>,
    column: Column<Fixed>,
    cursor: nat,
    regions: Seq<RegionStart>,
    first: Seq<ConstantRequest<F>>,
    second: Seq<ConstantRequest<F>>,
)
    ensures
        assign_constants(cs, column, cursor, regions, first + second) == match assign_constants(
            cs,
            column,
            cursor,
            regions,
            first,
        ) {
            Err(e) => Err(e),
            Ok(between) => assign_constants(between, column, cursor + first.len(), regions, second),
        },
        constant_copies(column, cursor, regions, first + second) == constant_copies(
            column,
            cursor,
            regions,
            first,
        ) + constant_copies(column, cursor + first.len(), regions, second),
    decreases second.len(),
{
    if second.len() > 0 {
        lemma_assign_constants_split(cs, column, cursor, regions, first, second.drop_last());
        assert((first + second).drop_last() =~= first + second.drop_last());
        assert((first + second).last() == second.last());
    } else {
        assert(first + second =~= first);
    }
    assert(constant_copies(column, cursor, regions, first + second) =~= constant_copies(
        column,
        cursor,
        regions,
        first,
    ) + constant_copies(column, cursor + first.len(), regions, second));
}

/// The rows of the constants follow from the order of the requests alone:
/// the constant of request `i` stands in row `cursor + i` of the column for
/// constants, whatever else the assembly holds.
pub proof fn lemma_constants_take_rows_in_order<F>(
    cs: AssemblyView<F>,
    column: Column<Fixed>,
    cursor: nat,
    regions: Seq<RegionStart>,
    requests: Seq<ConstantRequest<F>>,
)
    requires
        cs.wf(),
        cursor <= usize::MAX,
        assign_constants(cs, column, cursor, regions, requests) is Ok,
    ensures
        forall|i: int|
            0 <= i < requests.len() ==> cursor + i < cs.usable_rows.end && assign_constants(
                cs,
                column,
                cursor,
                regions,
                requests,
            )->Ok_0.query_fixed(column, (cursor + i) as usize) == Ok::<Assigned<F>, Error>(
                (#[trigger] requests[i]).0,
            ),
    decreases requests.len(),
{
    if requests.len() > 0 {
        let front = requests.drop_last();
        lemma_assign_constants_effects(cs, column, cursor, regions, front);
        lemma_constants_take_rows_in_order(cs, column, cursor, regions, front);
        let before = assign_constants(cs, column, cursor, regions, front)->Ok_0;
        let after = assign_constants(cs, column, cursor, regions, requests)->Ok_0;
        let last = (cursor + requests.len() - 1) as usize;
        let written = before.assign_fixed(
            column,
            last,
            Value { inner: Some(requests.last().0) },
        )->Ok_0;
        assert(after.fixed == written.fixed);
        assert(cursor + requests.len() - 1 <= usize::MAX) by {
            if front.len() > 0 {
                let _ = front[front.len() - 1];
            }
        }
        assert forall|i: int| 0 <= i < requests.len() implies cursor + i < cs.usable_rows.end
            && after.query_fixed(column, (cursor + i) as usize) == Ok::<Assigned<F>, Error>(
            (#[trigger] requests[i]).0,
        ) by {
            if i < front.len() {
                assert(front[i] == requests[i]);
                assert(before.query_fixed(column, (cursor + i) as usize) == Ok::<
                    Assigned<F>,
                    Error,
                >(requests[i].0));
            }
        }
    }
}

} // verus!
