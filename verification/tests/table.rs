use halo2_proofs::assembly::Assembly;
use halo2_proofs::column::{Column, Fixed, TableColumn};
use halo2_proofs::error::Error;
use halo2_proofs::single_pass::SingleChipLayouter;
use halo2_proofs::table::{SimpleTableLayouter, TableCell};
use halo2_proofs::value::{Assigned, Value};

fn table_column(index: usize) -> TableColumn {
    TableColumn::new(Column::new(index, Fixed))
}

fn cell(column: usize, offset: usize, value: u64) -> TableCell<u64> {
    TableCell { column: table_column(column), offset, to: Value::known(Assigned::Trivial(value)) }
}

/// The cells of a table of `rows` rows in the columns `columns`; row `r` of column `c` holds
/// `10 * c + r`.
fn table(columns: &[usize], rows: usize) -> Vec<TableCell<u64>> {
    let mut cells = vec![];
    for row in 0..rows {
        for column in columns {
            cells.push(cell(*column, row, 10 * *column as u64 + row as u64));
        }
    }
    cells
}

fn root() -> Assembly<u64> {
    Assembly::new(4, 16, 3, 0, 0..10)
}

#[test]
fn a_table_is_filled_with_the_values_of_its_first_row() {
    let mut cs = root();
    let mut layouter = SingleChipLayouter::new(&mut cs, vec![]).unwrap();
    assert_eq!(layouter.assign_table("table", &table(&[0, 2], 3)), Ok(()));
    assert_eq!(layouter.table_columns, vec![table_column(0), table_column(2)]);
    let (fixed, _, _) = cs.into_parts();
    let column = |c: u64| -> Vec<Assigned<u64>> {
        (0..16u64)
            .map(|row| match row {
                0..=2 => Assigned::Trivial(10 * c + row),
                3..=9 => Assigned::Trivial(10 * c),
                _ => Assigned::Zero,
            })
            .collect()
    };
    assert_eq!(fixed[0], column(0));
    assert_eq!(fixed[2], column(2));
    assert!(fixed[1].iter().all(|cell| *cell == Assigned::Zero));
}

#[test]
fn the_same_table_can_be_assigned_in_a_fresh_pass() {
    for _ in 0..2 {
        let mut cs = root();
        let mut layouter = SingleChipLayouter::new(&mut cs, vec![]).unwrap();
        assert_eq!(layouter.assign_table("table", &table(&[0, 1], 4)), Ok(()));
    }
}

#[test]
fn a_sealed_column_cannot_hold_another_table() {
    let mut cs = root();
    let mut layouter = SingleChipLayouter::new(&mut cs, vec![]).unwrap();
    assert_eq!(layouter.assign_table("table", &table(&[0, 1], 4)), Ok(()));
    // The same table again, in the same pass.
    assert_eq!(layouter.assign_table("again", &table(&[0, 1], 4)), Err(Error::Synthesis));
    // Another table that shares one column with it.
    assert_eq!(layouter.assign_table("overlap", &table(&[2, 1], 2)), Err(Error::Synthesis));
    // A table in a column that is still free.
    assert_eq!(layouter.assign_table("free", &table(&[2], 2)), Ok(()));
}

#[test]
fn row_zero_cannot_be_assigned_twice() {
    let mut cs = root();
    let mut layouter = SingleChipLayouter::new(&mut cs, vec![]).unwrap();
    let cells = [cell(0, 0, 1), cell(0, 1, 2), cell(0, 0, 1)];
    assert_eq!(layouter.assign_table("table", &cells), Err(Error::Synthesis));

    // Another row may be assigned again.
    let mut cs = root();
    let mut layouter = SingleChipLayouter::new(&mut cs, vec![]).unwrap();
    let cells = [cell(0, 0, 1), cell(0, 1, 2), cell(0, 1, 3)];
    assert_eq!(layouter.assign_table("table", &cells), Ok(()));
    assert_eq!(cs.query_fixed(Column::new(0, Fixed), 1), Ok(Assigned::Trivial(3)));
}

#[test]
fn columns_of_different_lengths_are_refused() {
    // Column 1 has 5 rows and column 2 has 4, both without a gap.
    let mut cells = table(&[1, 2], 4);
    cells.push(cell(1, 4, 14));
    let mut cs = root();
    let mut layouter = SingleChipLayouter::new(&mut cs, vec![]).unwrap();
    assert_eq!(layouter.assign_table("table", &cells), Err(Error::Synthesis));
}

#[test]
fn a_column_with_a_gap_is_refused() {
    let mut cs = root();
    let mut layouter = SingleChipLayouter::new(&mut cs, vec![]).unwrap();
    let cells = [cell(0, 0, 1), cell(0, 2, 3)];
    assert_eq!(layouter.assign_table("table", &cells), Err(Error::Synthesis));

    // So is a column whose first row is missing.
    let mut cs = root();
    let mut layouter = SingleChipLayouter::new(&mut cs, vec![]).unwrap();
    assert_eq!(layouter.assign_table("table", &[cell(0, 1, 1)]), Err(Error::Synthesis));
}

#[test]
fn a_table_without_cells_is_refused() {
    let mut cs = root();
    let mut layouter = SingleChipLayouter::new(&mut cs, vec![]).unwrap();
    assert_eq!(layouter.assign_table("table", &[]), Err(Error::Synthesis));
}

#[test]
fn a_table_reports_the_errors_of_the_assembly() {
    let mut cs = root();
    let mut layouter = SingleChipLayouter::new(&mut cs, vec![]).unwrap();
    assert_eq!(
        layouter.assign_table("rows", &[cell(0, 10, 1)]),
        Err(Error::NotEnoughRowsAvailable { current_k: 4 })
    );
    assert_eq!(layouter.assign_table("column", &[cell(3, 0, 1)]), Err(Error::BoundsFailure));
    let unknown = TableCell { column: table_column(0), offset: 0, to: Value::unknown() };
    assert_eq!(layouter.assign_table("value", &[unknown]), Err(Error::Synthesis));
    // A table that takes every usable row leaves no row to fill from.
    assert_eq!(
        layouter.assign_table("full", &table(&[1], 10)),
        Err(Error::NotEnoughRowsAvailable { current_k: 4 })
    );
}

#[test]
fn the_table_layouter_tracks_defaults_and_rows() {
    let mut cs = root();
    let used = vec![table_column(1)];
    let mut layouter = SimpleTableLayouter::new(&mut cs, &used);
    assert_eq!(layouter.assign_cell(table_column(1), 0, Value::known(Assigned::Zero)), Err(Error::Synthesis));
    assert_eq!(layouter.assign_cell(table_column(0), 2, Value::known(Assigned::Trivial(2))), Ok(()));
    assert_eq!(layouter.default_and_assigned.len(), 1);
    assert_eq!(layouter.default_and_assigned[0].default, None);
    assert_eq!(layouter.default_and_assigned[0].assigned, vec![false, false, true]);
    assert_eq!(layouter.assign_cell(table_column(0), 0, Value::known(Assigned::Trivial(9))), Ok(()));
    assert_eq!(layouter.default_and_assigned[0].default, Some(Value::known(Assigned::Trivial(9))));
    assert_eq!(layouter.default_and_assigned[0].assigned, vec![true, false, true]);
    assert_eq!(
        layouter.assign_cell(table_column(0), 0, Value::known(Assigned::Trivial(9))),
        Err(Error::Synthesis)
    );
    assert_eq!(layouter.assign_cell(table_column(2), 0, Value::known(Assigned::Zero)), Ok(()));
    assert_eq!(layouter.default_and_assigned.len(), 2);
    assert_eq!(layouter.default_and_assigned[1].column, table_column(2));
}
