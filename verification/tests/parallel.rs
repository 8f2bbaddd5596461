use halo2_proofs::assembly::Assembly;
use halo2_proofs::cell::{Cell, CopyCell, RegionIndex};
use halo2_proofs::column::{Advice, Column, Fixed, Instance, Selector};
use halo2_proofs::error::Error;
use halo2_proofs::shape::RegionOp;
use halo2_proofs::single_pass::SingleChipLayouter;
use halo2_proofs::value::{Assigned, Value};

fn known(value: u64) -> Value<Assigned<u64>> {
    Value::known(Assigned::Trivial(value))
}

/// A region of `rows` rows that writes `tag + row` to each row of fixed column 0, asks for a
/// constant in its first row, ties its first cell to its last, and its first cell to the first
/// cell of the region before it.
fn region(index: usize, rows: usize, tag: u64) -> Vec<RegionOp<u64>> {
    let fixed = Column::new(0, Fixed);
    let advice = Column::new(0, Advice);
    let mut ops = vec![];
    for row in 0..rows {
        ops.push(RegionOp::AssignFixed { column: fixed, offset: row, to: known(tag + row as u64) });
    }
    ops.push(RegionOp::EnableSelector { selector: Selector(0), offset: rows - 1 });
    ops.push(RegionOp::AssignAdviceFromConstant {
        column: advice,
        offset: 0,
        constant: Assigned::Trivial(tag),
    });
    let first = Cell { region_index: RegionIndex(index), row_offset: 0, column: fixed.any() };
    let last = Cell { region_index: RegionIndex(index), row_offset: rows - 1, column: fixed.any() };
    ops.push(RegionOp::ConstrainEqual { left: first, right: last });
    if index > 0 {
        let earlier =
            Cell { region_index: RegionIndex(index - 1), row_offset: 0, column: fixed.any() };
        ops.push(RegionOp::ConstrainEqual { left: first, right: earlier });
    }
    ops.push(RegionOp::AssignAdviceFromInstance {
        instance: Column::new(0, Instance),
        row: index,
        advice,
        offset: rows - 1,
    });
    ops
}

fn batch() -> Vec<Vec<RegionOp<u64>>> {
    vec![region(0, 3, 100), region(1, 1, 200), region(2, 4, 300), region(3, 2, 400)]
}

/// Two fixed columns, of which the second holds the constants, and one selector.
fn root() -> Assembly<u64> {
    Assembly::new(5, 32, 2, 1, 0..26)
}

type Parts = (Vec<Vec<Assigned<u64>>>, Vec<Vec<bool>>, Vec<(CopyCell, CopyCell)>);

fn parts(cs: Assembly<u64>) -> Parts {
    let (fixed, selectors, permutation) = cs.into_parts();
    let permutation = permutation.unwrap();
    (fixed, selectors, (0..permutation.len()).map(|i| permutation.get(i)).collect())
}

fn one_by_one() -> Parts {
    let mut cs = root();
    let mut layouter = SingleChipLayouter::new(&mut cs, vec![Column::new(1, Fixed)]).unwrap();
    for (i, ops) in batch().iter().enumerate() {
        assert!(layouter.admits(ops));
        assert_eq!(layouter.assign_region("region", ops), Ok(RegionIndex(i)));
    }
    parts(cs)
}

fn forked() -> Parts {
    let mut cs = root();
    let mut layouter = SingleChipLayouter::new(&mut cs, vec![Column::new(1, Fixed)]).unwrap();
    let assignments = batch();
    assert!(layouter.admits_all(&assignments));
    assert_eq!(
        layouter.assign_regions("batch", &assignments),
        Ok(vec![RegionIndex(0), RegionIndex(1), RegionIndex(2), RegionIndex(3)])
    );
    assert_eq!(layouter.regions.iter().map(|start| start.0).collect::<Vec<_>>(), vec![0, 3, 4, 8]);
    parts(cs)
}

fn key(copy: &(CopyCell, CopyCell)) -> (u128, usize, u128, usize) {
    let tag = |cell: &CopyCell| halo2_proofs::column::RegionColumn::Column(cell.column).key();
    (tag(&copy.0), copy.0.row, tag(&copy.1), copy.1.row)
}

#[test]
fn a_batch_writes_what_its_regions_write() {
    let (fixed, selectors, copies) = forked();
    let expected: Vec<Assigned<u64>> = (0..32u64)
        .map(|row| match row {
            0..=2 => Assigned::Trivial(100 + row),
            3 => Assigned::Trivial(200),
            4..=7 => Assigned::Trivial(300 + row - 4),
            8..=9 => Assigned::Trivial(400 + row - 8),
            _ => Assigned::Zero,
        })
        .collect();
    assert_eq!(fixed[0], expected);
    // The constants, in the order of the regions.
    assert_eq!(
        fixed[1][0..5],
        [
            Assigned::Trivial(100),
            Assigned::Trivial(200),
            Assigned::Trivial(300),
            Assigned::Trivial(400),
            Assigned::Zero
        ]
    );
    let on: Vec<usize> = (0..32).filter(|row| selectors[0][*row]).collect();
    assert_eq!(on, vec![2, 3, 7, 9]);

    // The copies of the regions in the order of the regions, and then those of the constants.
    let rows: Vec<(usize, usize)> = copies.iter().map(|(l, r)| (l.row, r.row)).collect();
    assert_eq!(
        rows,
        vec![
            (0, 2),
            (2, 0),
            (3, 3),
            (3, 0),
            (3, 1),
            (4, 7),
            (4, 3),
            (7, 2),
            (8, 9),
            (8, 4),
            (9, 3),
            (0, 0),
            (1, 3),
            (2, 4),
            (3, 8)
        ]
    );
}

#[test]
fn a_batch_registers_the_copies_of_its_regions_laid_out_one_by_one() {
    let (fixed_a, selectors_a, copies_a) = one_by_one();
    let (fixed_b, selectors_b, copies_b) = forked();
    assert_eq!(fixed_a, fixed_b);
    assert_eq!(selectors_a, selectors_b);
    assert_ne!(copies_a, copies_b);
    let mut a: Vec<_> = copies_a.iter().map(key).collect();
    let mut b: Vec<_> = copies_b.iter().map(key).collect();
    a.sort();
    b.sort();
    assert_eq!(a, b);
}

#[test]
fn a_batch_is_laid_out_alike_every_time() {
    assert_eq!(forked().0, forked().0);
    let first: Vec<_> = forked().2.iter().map(key).collect();
    let second: Vec<_> = forked().2.iter().map(key).collect();
    assert_eq!(first, second);
    let first: Vec<_> = one_by_one().2.iter().map(key).collect();
    let second: Vec<_> = one_by_one().2.iter().map(key).collect();
    assert_eq!(first, second);
}

#[test]
fn regions_that_share_no_column_cannot_be_forked() {
    // Both regions start at row 0, each in a column of its own: their rows overlap.
    let assignments: Vec<Vec<RegionOp<u64>>> = vec![
        vec![RegionOp::AssignFixed { column: Column::new(0, Fixed), offset: 1, to: known(1) }],
        vec![RegionOp::AssignFixed { column: Column::new(1, Fixed), offset: 0, to: known(2) }],
    ];
    let mut cs = root();
    let mut layouter = SingleChipLayouter::new(&mut cs, vec![]).unwrap();
    assert_eq!(layouter.assign_regions("batch", &assignments), Err(Error::Synthesis));
}

#[test]
fn a_batch_reports_the_error_of_its_first_failing_region() {
    let fixed = Column::new(0, Fixed);
    let assignments: Vec<Vec<RegionOp<u64>>> = vec![
        vec![RegionOp::AssignFixed { column: fixed, offset: 0, to: known(1) }],
        vec![
            RegionOp::AssignFixed { column: fixed, offset: 0, to: known(1) },
            RegionOp::AssignFixed { column: Column::new(7, Fixed), offset: 0, to: known(1) },
        ],
        vec![RegionOp::AssignFixed { column: fixed, offset: 0, to: Value::unknown() }],
    ];
    let mut cs = root();
    let mut layouter = SingleChipLayouter::new(&mut cs, vec![]).unwrap();
    assert_eq!(layouter.assign_regions("batch", &assignments), Err(Error::BoundsFailure));
}

#[test]
fn a_batch_without_a_column_for_constants_refuses_constants() {
    let mut cs = root();
    let mut layouter = SingleChipLayouter::new(&mut cs, vec![]).unwrap();
    assert_eq!(
        layouter.assign_regions("batch", &batch()),
        Err(Error::NotEnoughColumnsForConstants)
    );
    let mut cs = root();
    let mut layouter = SingleChipLayouter::new(&mut cs, vec![]).unwrap();
    assert_eq!(layouter.assign_regions("empty", &vec![]), Ok(vec![]));
}

#[test]
fn a_batch_that_reaches_beyond_the_usable_rows_is_refused() {
    let mut cs: Assembly<u64> = Assembly::new(4, 16, 2, 1, 0..9);
    let mut layouter = SingleChipLayouter::new(&mut cs, vec![Column::new(1, Fixed)]).unwrap();
    // The regions take rows 0 to 9, and row 9 is not usable.
    assert_eq!(layouter.assign_regions("batch", &batch()), Err(Error::Synthesis));
}

#[test]
fn a_region_that_uses_the_constants_column_moves_the_constants() {
    // The first region asks for a constant; the second writes to the column for constants.
    let constants = Column::new(0, Fixed);
    let advice = Column::new(0, Advice);
    let assignments: Vec<Vec<RegionOp<u64>>> = vec![
        vec![RegionOp::AssignAdviceFromConstant {
            column: advice,
            offset: 0,
            constant: Assigned::Trivial(5),
        }],
        vec![
            RegionOp::AssignAdvice { column: advice, offset: 0, to: Value::unknown() },
            RegionOp::AssignFixed { column: constants, offset: 0, to: known(6) },
        ],
    ];

    let mut cs = root();
    let mut layouter = SingleChipLayouter::new(&mut cs, vec![constants]).unwrap();
    for ops in &assignments {
        layouter.assign_region("region", ops).unwrap();
    }
    // One by one, the constant takes row 0 before the second region is placed at row 1.
    assert_eq!(cs.query_fixed(constants, 0), Ok(Assigned::Trivial(5)));
    assert_eq!(cs.query_fixed(constants, 1), Ok(Assigned::Trivial(6)));

    let mut cs = root();
    let mut layouter = SingleChipLayouter::new(&mut cs, vec![constants]).unwrap();
    layouter.assign_regions("batch", &assignments).unwrap();
    // In a batch, both regions are placed first, and the constant follows them.
    assert_eq!(cs.query_fixed(constants, 1), Ok(Assigned::Trivial(6)));
    assert_eq!(cs.query_fixed(constants, 2), Ok(Assigned::Trivial(5)));
}

#[test]
fn a_batch_in_which_a_region_fails_is_not_merged() {
    let fixed = Column::new(0, Fixed);
    let assignments: Vec<Vec<RegionOp<u64>>> = vec![
        vec![RegionOp::AssignFixed { column: fixed, offset: 0, to: known(1) }],
        vec![RegionOp::AssignFixed { column: fixed, offset: 0, to: Value::unknown() }],
    ];
    let mut cs = root();
    let mut layouter = SingleChipLayouter::new(&mut cs, vec![]).unwrap();
    assert_eq!(layouter.assign_regions("batch", &assignments), Err(Error::Synthesis));
    // What the first region wrote in its own context is dropped.
    assert_eq!(cs.query_fixed(fixed, 0), Ok(Assigned::Zero));
}
