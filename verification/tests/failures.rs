use halo2_proofs::assembly::Assembly;
use halo2_proofs::cell::{RegionIndex, RegionStart};
use halo2_proofs::circuit::Step;
use halo2_proofs::column::{Advice, Column, Fixed, RegionColumn, Selector, TableColumn};
use halo2_proofs::error::Error;
use halo2_proofs::shape::RegionOp;
use halo2_proofs::single_pass::SingleChipLayouter;
use halo2_proofs::table::{SimpleTableLayouter, TableCell};
use halo2_proofs::value::{Assigned, Value};

fn known(value: u64) -> Value<Assigned<u64>> {
    Value::known(Assigned::Trivial(value))
}

fn table_column(index: usize) -> TableColumn {
    TableColumn::new(Column::new(index, Fixed))
}

fn cell(column: usize, offset: usize, value: u64) -> TableCell<u64> {
    TableCell { column: table_column(column), offset, to: known(value) }
}

fn root() -> Assembly<u64> {
    Assembly::new(4, 16, 3, 1, 0..10)
}

fn zeros(cs: Assembly<u64>) -> bool {
    let (fixed, selectors, permutation) = cs.into_parts();
    fixed.iter().flatten().all(|cell| *cell == Assigned::Zero)
        && selectors.iter().flatten().all(|on| !on)
        && permutation.unwrap().len() == 0
}

#[test]
fn a_second_value_for_row_zero_does_not_replace_the_default() {
    let mut cs = root();
    let used = vec![];
    let mut table = SimpleTableLayouter::new(&mut cs, &used);
    assert_eq!(table.assign_cell(table_column(0), 0, known(1)), Ok(()));
    assert_eq!(table.assign_cell(table_column(0), 1, known(5)), Ok(()));
    assert_eq!(table.assign_cell(table_column(0), 0, known(2)), Err(Error::Synthesis));
    assert_eq!(table.default_and_assigned.len(), 1);
    assert_eq!(table.default_and_assigned[0].default, Some(known(1)));
    assert_eq!(table.default_and_assigned[0].assigned, vec![true, true]);
    // The assembly has taken the second value.
    assert_eq!(cs.query_fixed(Column::new(0, Fixed), 0), Ok(Assigned::Trivial(2)));
    assert_eq!(cs.query_fixed(Column::new(0, Fixed), 1), Ok(Assigned::Trivial(5)));
}

#[test]
fn a_cell_of_a_sealed_column_leaves_the_table_as_it_was() {
    let mut cs = root();
    let used = vec![table_column(1)];
    let mut table = SimpleTableLayouter::new(&mut cs, &used);
    assert_eq!(table.assign_cell(table_column(0), 0, known(1)), Ok(()));
    for offset in [0, 1, 7] {
        assert_eq!(table.assign_cell(table_column(1), offset, known(9)), Err(Error::Synthesis));
    }
    assert_eq!(table.default_and_assigned.len(), 1);
    assert_eq!(table.default_and_assigned[0].column, table_column(0));
    assert_eq!(table.default_and_assigned[0].assigned, vec![true]);
    let (fixed, _, _) = cs.into_parts();
    assert!(fixed[1].iter().all(|cell| *cell == Assigned::Zero));
    assert_eq!(fixed[0][0], Assigned::Trivial(1));
}

#[test]
fn a_cell_that_the_assembly_refuses_marks_no_row() {
    let mut cs = root();
    let used = vec![];
    let mut table = SimpleTableLayouter::new(&mut cs, &used);
    assert_eq!(
        table.assign_cell(table_column(0), 10, known(1)),
        Err(Error::NotEnoughRowsAvailable { current_k: 4 })
    );
    assert_eq!(table.assign_cell(table_column(0), 0, Value::unknown()), Err(Error::Synthesis));
    assert_eq!(table.assign_cell(table_column(5), 0, known(1)), Err(Error::BoundsFailure));
    assert!(table.default_and_assigned.is_empty());
    assert_eq!(table.assign_cell(table_column(0), 1, known(1)), Ok(()));
    assert_eq!(table.assign_cell(table_column(0), 12, known(1)), Err(Error::NotEnoughRowsAvailable { current_k: 4 }));
    assert_eq!(table.default_and_assigned[0].assigned, vec![false, true]);
    assert_eq!(table.default_and_assigned[0].default, None);
    // The cells before the failing one stay assigned.
    let cells = [cell(1, 0, 3), cell(1, 1, 4), cell(9, 0, 5), cell(1, 2, 6)];
    assert_eq!(table.assign_cells(&cells), Err(Error::BoundsFailure));
    assert_eq!(table.default_and_assigned[1].assigned, vec![true, true]);
    assert_eq!(cs.query_fixed(Column::new(1, Fixed), 1), Ok(Assigned::Trivial(4)));
    assert_eq!(cs.query_fixed(Column::new(1, Fixed), 2), Ok(Assigned::Zero));
}

#[test]
fn a_table_without_a_common_length_seals_and_fills_nothing() {
    let tables: Vec<Vec<TableCell<u64>>> = vec![
        // Columns of 5 and 4 rows.
        (0..5).map(|row| cell(1, row, 7)).chain((0..4).map(|row| cell(2, row, 8))).collect(),
        // A gap.
        vec![cell(1, 0, 7), cell(1, 1, 7), cell(1, 3, 7)],
        // Row 0 is missing.
        vec![cell(1, 1, 7), cell(1, 2, 7)],
    ];
    for cells in tables {
        let mut cs = root();
        let mut layouter = SingleChipLayouter::new(&mut cs, vec![]).unwrap();
        assert_eq!(layouter.assign_table("table", &cells), Err(Error::Synthesis));
        assert!(layouter.table_columns.is_empty());
        assert!(layouter.regions.is_empty());
        // Nothing is filled: the rows after the cells hold zero.
        assert_eq!(cs.query_fixed(Column::new(1, Fixed), 5), Ok(Assigned::Zero));
        assert_eq!(cs.query_fixed(Column::new(1, Fixed), 9), Ok(Assigned::Zero));
        assert_eq!(cs.query_fixed(Column::new(2, Fixed), 4), Ok(Assigned::Zero));
        // The cells themselves are assigned.
        assert_eq!(cs.query_fixed(Column::new(1, Fixed), 1), Ok(Assigned::Trivial(7)));
    }

    // A table without cells changes nothing.
    let mut cs = root();
    let mut layouter = SingleChipLayouter::new(&mut cs, vec![]).unwrap();
    assert_eq!(layouter.assign_table("table", &[]), Err(Error::Synthesis));
    assert!(layouter.table_columns.is_empty());
    assert!(zeros(cs));
}

#[test]
fn a_second_table_does_not_write_to_a_sealed_column() {
    let mut cs = root();
    let mut layouter = SingleChipLayouter::new(&mut cs, vec![]).unwrap();
    assert_eq!(layouter.assign_table("table", &[cell(0, 0, 1), cell(0, 1, 2)]), Ok(()));
    assert_eq!(layouter.table_columns, vec![table_column(0)]);
    assert_eq!(layouter.assign_table("again", &[cell(0, 0, 9)]), Err(Error::Synthesis));
    assert_eq!(layouter.assign_table("later", &[cell(1, 0, 9), cell(0, 3, 9)]), Err(Error::Synthesis));
    assert_eq!(layouter.table_columns, vec![table_column(0)]);
    let (fixed, _, _) = cs.into_parts();
    let expected: Vec<Assigned<u64>> = (0..16)
        .map(|row| match row {
            1 => Assigned::Trivial(2),
            0 | 2..=9 => Assigned::Trivial(1),
            _ => Assigned::Zero,
        })
        .collect();
    assert_eq!(fixed[0], expected);
    // The cell of the free column that came before the sealed one is assigned, and not filled.
    assert_eq!(fixed[1][0], Assigned::Trivial(9));
    assert!(fixed[1][1..].iter().all(|cell| *cell == Assigned::Zero));
}

#[test]
fn a_table_whose_filling_fails_is_sealed() {
    // Ten usable rows, and a table of ten rows: there is no row to fill from.
    let cells: Vec<TableCell<u64>> = (0..10).map(|row| cell(2, row, 4)).collect();
    let mut cs = root();
    let mut layouter = SingleChipLayouter::new(&mut cs, vec![]).unwrap();
    assert_eq!(
        layouter.assign_table("full", &cells),
        Err(Error::NotEnoughRowsAvailable { current_k: 4 })
    );
    assert_eq!(layouter.table_columns, vec![table_column(2)]);
}

#[test]
fn a_region_that_fails_stays_placed_and_gets_no_constant() {
    let constants = Column::new(2, Fixed);
    let advice = Column::new(0, Advice);
    let ops: Vec<RegionOp<u64>> = vec![
        RegionOp::AssignAdviceFromConstant { column: advice, offset: 0, constant: Assigned::Trivial(5) },
        RegionOp::AssignFixed { column: Column::new(0, Fixed), offset: 2, to: known(1) },
        RegionOp::EnableSelector { selector: Selector(4), offset: 0 },
        RegionOp::AssignFixed { column: Column::new(0, Fixed), offset: 1, to: known(2) },
    ];
    let mut cs = root();
    let mut layouter = SingleChipLayouter::new(&mut cs, vec![constants]).unwrap();
    layouter.assign_region("first", &ops[..2]).unwrap();
    assert_eq!(layouter.assign_region("second", &ops), Err(Error::BoundsFailure));

    assert_eq!(layouter.regions, vec![RegionStart(0), RegionStart(3)]);
    assert_eq!(layouter.columns.get(&RegionColumn::Column(advice.any())), 6);
    assert_eq!(layouter.columns.get(&RegionColumn::Column(Column::new(0, Fixed).any())), 6);
    assert_eq!(layouter.columns.get(&RegionColumn::Selector(Selector(4))), 6);
    // The constant of the first region took row 0; the second region got none.
    assert_eq!(layouter.columns.get(&RegionColumn::Column(constants.any())), 1);
    assert_eq!(cs.query_fixed(constants, 0), Ok(Assigned::Trivial(5)));
    assert_eq!(cs.query_fixed(constants, 1), Ok(Assigned::Zero));
    // The step before the failing one is taken, the step after it is not.
    assert_eq!(cs.query_fixed(Column::new(0, Fixed), 5), Ok(Assigned::Trivial(1)));
    assert_eq!(cs.query_fixed(Column::new(0, Fixed), 4), Ok(Assigned::Zero));
    let (_, _, permutation) = cs.into_parts();
    assert_eq!(permutation.unwrap().len(), 1);
}

#[test]
fn constants_that_fail_claim_no_row() {
    // Two usable rows in all, and three constants.
    let constants = Column::new(0, Fixed);
    let advice = Column::new(0, Advice);
    let ops: Vec<RegionOp<u64>> = (0..3)
        .map(|row| RegionOp::AssignAdviceFromConstant {
            column: advice,
            offset: row,
            constant: Assigned::Trivial(7 + row as u64),
        })
        .collect();
    let mut cs: Assembly<u64> = Assembly::new(3, 8, 1, 0, 0..2);
    let mut layouter = SingleChipLayouter::new(&mut cs, vec![constants]).unwrap();
    assert_eq!(
        layouter.assign_region("region", &ops),
        Err(Error::NotEnoughRowsAvailable { current_k: 3 })
    );
    assert_eq!(layouter.regions, vec![RegionStart(0)]);
    assert_eq!(layouter.columns.get(&RegionColumn::Column(advice.any())), 3);
    assert_eq!(layouter.columns.get(&RegionColumn::Column(constants.any())), 0);
    // The constants before the failing one are assigned and tied to their cells.
    assert_eq!(cs.query_fixed(constants, 0), Ok(Assigned::Trivial(7)));
    assert_eq!(cs.query_fixed(constants, 1), Ok(Assigned::Trivial(8)));
    let (_, _, permutation) = cs.into_parts();
    assert_eq!(permutation.unwrap().len(), 2);
}

#[test]
fn a_batch_that_fails_stays_placed() {
    let fixed = Column::new(0, Fixed);
    let assignments: Vec<Vec<RegionOp<u64>>> = vec![
        vec![RegionOp::AssignFixed { column: fixed, offset: 1, to: known(1) }],
        vec![RegionOp::AssignFixed { column: fixed, offset: 0, to: Value::unknown() }],
    ];
    let mut cs = root();
    let mut layouter = SingleChipLayouter::new(&mut cs, vec![]).unwrap();
    assert_eq!(layouter.assign_regions("batch", &assignments), Err(Error::Synthesis));
    assert_eq!(layouter.regions, vec![RegionStart(0), RegionStart(2)]);
    assert_eq!(layouter.columns.get(&RegionColumn::Column(fixed.any())), 3);
    assert!(zeros(cs));

    // Rows that cannot be forked: the regions are placed, and nothing is written.
    let apart: Vec<Vec<RegionOp<u64>>> = vec![
        vec![RegionOp::AssignFixed { column: fixed, offset: 1, to: known(1) }],
        vec![RegionOp::AssignFixed { column: Column::new(1, Fixed), offset: 0, to: known(2) }],
    ];
    let mut cs = root();
    let mut layouter = SingleChipLayouter::new(&mut cs, vec![]).unwrap();
    assert_eq!(layouter.assign_regions("batch", &apart), Err(Error::Synthesis));
    assert_eq!(layouter.regions, vec![RegionStart(0), RegionStart(0)]);
    assert!(zeros(cs));
}

#[test]
fn a_synthesis_that_fails_keeps_what_was_laid_out() {
    let fixed = Column::new(0, Fixed);
    let steps: Vec<Step<u64>> = vec![
        Step::AssignRegion {
            name: String::from("first"),
            ops: vec![RegionOp::AssignFixed { column: fixed, offset: 0, to: known(1) }],
        },
        Step::AssignTable { name: String::from("table"), cells: vec![cell(1, 1, 3)] },
        Step::AssignRegion {
            name: String::from("never"),
            ops: vec![RegionOp::AssignFixed { column: fixed, offset: 0, to: known(2) }],
        },
    ];
    for checked in [false, true] {
        let mut cs = root();
        let mut layouter = SingleChipLayouter::new(&mut cs, vec![]).unwrap();
        if checked {
            assert_eq!(layouter.try_synthesize(&steps), Some(Err(Error::Synthesis)));
        } else {
            assert_eq!(layouter.synthesize(&steps), Err(Error::Synthesis));
        }
        assert_eq!(layouter.regions, vec![RegionStart(0)]);
        assert!(layouter.table_columns.is_empty());
        assert_eq!(cs.query_fixed(fixed, 0), Ok(Assigned::Trivial(1)));
        assert_eq!(cs.query_fixed(fixed, 1), Ok(Assigned::Zero));
        assert_eq!(cs.query_fixed(Column::new(1, Fixed), 1), Ok(Assigned::Trivial(3)));
    }

    // A step that cannot be taken ends a checked synthesis, and is not taken.
    let far = halo2_proofs::cell::Cell { region_index: RegionIndex(7), row_offset: 0, column: fixed.any() };
    let steps: Vec<Step<u64>> = vec![
        steps[0].clone(),
        Step::AssignRegion {
            name: String::from("names a region that is not placed"),
            ops: vec![RegionOp::ConstrainEqual { left: far, right: far }],
        },
    ];
    let mut cs = root();
    let mut layouter = SingleChipLayouter::new(&mut cs, vec![]).unwrap();
    assert_eq!(layouter.try_synthesize(&steps), None);
    assert_eq!(layouter.regions, vec![RegionStart(0)]);
    assert_eq!(cs.query_fixed(fixed, 0), Ok(Assigned::Trivial(1)));
}
