use halo2_proofs::assembly::Assembly;
use halo2_proofs::cell::RegionIndex;
use halo2_proofs::circuit::Step;
use halo2_proofs::column::{Advice, Column, Fixed, RegionColumn, Selector};
use halo2_proofs::error::Error;
use halo2_proofs::occupancy::ColumnOccupancy;
use halo2_proofs::shape::{RegionOp, RegionShape};
use halo2_proofs::single_pass::SingleChipLayouter;
use halo2_proofs::value::{Assigned, Value};

/// A region that uses row `offset` of each of the advice columns `columns`.
fn region(columns: &[usize], offset: usize) -> Vec<RegionOp<u64>> {
    columns
        .iter()
        .map(|column| RegionOp::AssignAdvice {
            column: Column::new(*column, Advice),
            offset,
            to: Value::unknown(),
        })
        .collect()
}

fn regions() -> Vec<Vec<RegionOp<u64>>> {
    vec![
        region(&[0, 1], 2),
        region(&[2], 0),
        region(&[1, 2], 1),
        region(&[3], 4),
        region(&[0, 3], 0),
        region(&[], 0),
        region(&[2, 0], 3),
        region(&[4], 6),
    ]
}

/// The start row and the shape of each region, placed in order.
fn placed() -> Vec<(usize, RegionShape)> {
    let mut occupancy = ColumnOccupancy::new();
    regions()
        .iter()
        .enumerate()
        .map(|(i, ops)| {
            let shape = RegionShape::probe(RegionIndex(i), ops);
            (occupancy.place(&shape), shape)
        })
        .collect()
}

#[test]
fn regions_are_placed_at_the_first_row_that_is_free_in_all_their_columns() {
    let starts: Vec<usize> = placed().iter().map(|(start, _)| *start).collect();
    assert_eq!(starts, vec![0, 0, 3, 0, 5, 0, 6, 0]);
}

#[test]
fn no_two_regions_share_a_row_of_a_column() {
    let placed = placed();
    for (j, (later_start, later)) in placed.iter().enumerate() {
        for (earlier_start, earlier) in &placed[..j] {
            for column in earlier.columns() {
                if later.columns().contains(column) {
                    assert!(earlier_start + earlier.row_count() <= *later_start);
                }
            }
        }
    }
}

#[test]
fn a_region_whose_columns_are_unused_starts_at_row_zero() {
    // The last region is the only one to use its column, and the eighth to be created.
    let (start, shape) = &placed()[7];
    assert_eq!(shape.columns(), &vec![RegionColumn::Column(Column::new(4, Advice).any())]);
    assert_eq!(*start, 0);
}

#[test]
fn constants_take_rows_in_the_order_of_the_requests() {
    let constants = Column::new(0, Fixed);
    let advice = Column::new(0, Advice);
    let run = || {
        let mut cs: Assembly<u64> = Assembly::new(4, 16, 1, 0, 0..10);
        let mut layouter = SingleChipLayouter::new(&mut cs, vec![constants]).unwrap();
        for tag in [10u64, 20, 30] {
            let ops: Vec<RegionOp<u64>> = (0..2)
                .map(|row| RegionOp::AssignAdviceFromConstant {
                    column: advice,
                    offset: row,
                    constant: Assigned::Trivial(tag + row as u64),
                })
                .collect();
            layouter.assign_region("constants", &ops).unwrap();
        }
        let (fixed, _, permutation) = cs.into_parts();
        let permutation = permutation.unwrap();
        let copies: Vec<(usize, usize)> = (0..permutation.len())
            .map(|i| permutation.get(i))
            .map(|(constant, cell)| (constant.row, cell.row))
            .collect();
        (fixed, copies)
    };
    let (fixed, copies) = run();
    let values: Vec<Assigned<u64>> =
        [10u64, 11, 20, 21, 30, 31].iter().map(|v| Assigned::Trivial(*v)).collect();
    assert_eq!(fixed[0][0..6], values[..]);
    assert_eq!(copies, vec![(0, 0), (1, 1), (2, 2), (3, 3), (4, 4), (5, 5)]);
    assert_eq!(run(), (fixed, copies));
}

#[test]
fn a_step_that_is_not_admitted_is_found_before_it_is_taken() {
    let mut cs: Assembly<u64> = Assembly::new(4, 16, 1, 1, 0..10);
    let mut layouter = SingleChipLayouter::new(&mut cs, vec![]).unwrap();
    let fixed = Column::new(0, Fixed);
    let cell = |region: usize, row_offset: usize| halo2_proofs::cell::Cell {
        region_index: RegionIndex(region),
        row_offset,
        column: fixed.any(),
    };
    // A region may name its own cells, not those of a region that follows it.
    let own = [RegionOp::<u64>::ConstrainEqual { left: cell(0, 0), right: cell(0, 1) }];
    let next = [RegionOp::<u64>::ConstrainEqual { left: cell(0, 0), right: cell(1, 0) }];
    assert!(layouter.admits(&own));
    assert!(!layouter.admits(&next));
    // In a batch, a region may name the cells of every region of the batch.
    assert!(layouter.admits_all(&vec![next.to_vec(), own.to_vec()]));
    assert!(!layouter.admits_all(&vec![own.to_vec(), vec![RegionOp::ConstrainEqual { left: cell(0, 0), right: cell(2, 0) }]]));
    // A row that the machine cannot number.
    let far = [RegionOp::<u64>::ConstrainConstant { cell: cell(0, usize::MAX), constant: Assigned::Zero }];
    assert!(layouter.admits(&far));
    layouter
        .assign_region("region", &[RegionOp::EnableSelector { selector: Selector(0), offset: 4 }])
        .unwrap();
    layouter.assign_region("region", &[RegionOp::EnableSelector { selector: Selector(0), offset: 0 }]).unwrap();
    let far = [RegionOp::<u64>::ConstrainConstant { cell: cell(1, usize::MAX), constant: Assigned::Zero }];
    assert!(!layouter.admits(&far));

    let steps = vec![
        Step::AssignRegion { name: String::from("own"), ops: own.to_vec() },
        Step::AssignRegion { name: String::from("far"), ops: far.to_vec() },
    ];
    assert!(layouter.admits_step(&steps[0]));
    assert!(!layouter.admits_step(&steps[1]));
    assert_eq!(layouter.try_synthesize(&steps), None);
    assert_eq!(layouter.try_synthesize(&steps[..1].to_vec()), Some(Ok(())));
    let failing = vec![Step::AssignRegion {
        name: String::from("fails"),
        ops: vec![RegionOp::EnableSelector { selector: Selector(3), offset: 0 }],
    }];
    assert_eq!(layouter.try_synthesize(&failing), Some(Err(Error::BoundsFailure)));
}
