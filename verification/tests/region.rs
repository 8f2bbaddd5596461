use halo2_proofs::assembly::Assembly;
use halo2_proofs::batch::materialize;
use halo2_proofs::cell::{Cell, RegionIndex, RegionStart};
use halo2_proofs::column::{Advice, Challenge, Column, Fixed, Instance, Selector, TableColumn};
use halo2_proofs::constants::assign_constants_to_column;
use halo2_proofs::error::Error;
use halo2_proofs::occupancy::ColumnOccupancy;
use halo2_proofs::region::SingleChipLayouterRegion;
use halo2_proofs::shape::RegionOp;
use halo2_proofs::single_pass::SingleChipLayouter;
use halo2_proofs::value::{Assigned, Value};

fn known(value: u64) -> Value<Assigned<u64>> {
    Value::known(Assigned::Trivial(value))
}

fn root() -> Assembly<u64> {
    Assembly::new(4, 16, 2, 1, 0..10)
}

#[test]
fn a_region_counts_its_rows_from_its_start() {
    let mut cs = root();
    let starts = vec![RegionStart(2), RegionStart(5)];
    let advice = Column::new(0, Advice);
    let fixed = Column::new(1, Fixed);
    let mut region = SingleChipLayouterRegion::new(&mut cs, &starts, RegionIndex(1));
    assert_eq!(region.global_offset(0), 5);
    assert_eq!(region.global_offset(3), 8);

    let cell = region.assign_fixed(fixed, 2, known(7)).unwrap();
    assert_eq!(cell, Cell { region_index: RegionIndex(1), row_offset: 2, column: fixed.any() });
    assert_eq!(region.query_fixed(fixed, 2), Ok(Assigned::Trivial(7)));
    assert_eq!(region.query_fixed(fixed, 5), Err(Error::NotEnoughRowsAvailable { current_k: 4 }));
    assert_eq!(region.assign_fixed(fixed, 5, known(7)), Err(Error::NotEnoughRowsAvailable { current_k: 4 }));
    assert_eq!(region.enable_selector(&Selector(0), 4), Ok(()));
    assert_eq!(region.enable_selector(&Selector(0), 5), Err(Error::NotEnoughRowsAvailable { current_k: 4 }));

    let a = region.assign_advice(advice, 1, Value::unknown()).unwrap();
    assert_eq!(a, Cell { region_index: RegionIndex(1), row_offset: 1, column: advice.any() });
    assert_eq!(region.query_advice(advice, 1), Ok(Assigned::Zero));
    region.name_column("advice", advice.any());

    // A cell of an earlier region is counted from the start of that region.
    let earlier = Cell { region_index: RegionIndex(0), row_offset: 1, column: advice.any() };
    assert_eq!(region.constrain_equal(a, earlier), Ok(()));
    let far = Cell { region_index: RegionIndex(0), row_offset: 8, column: advice.any() };
    assert_eq!(region.constrain_equal(a, far), Err(Error::NotEnoughRowsAvailable { current_k: 4 }));

    let (from_instance, value) =
        region.assign_advice_from_instance(Column::new(0, Instance), 9, advice, 0).unwrap();
    assert_eq!(from_instance.row_offset, 0);
    assert_eq!(value, Value::unknown());
    assert_eq!(
        region.assign_advice_from_instance(Column::new(0, Instance), 10, advice, 0),
        Err(Error::NotEnoughRowsAvailable { current_k: 4 })
    );

    let with_constant = region.assign_advice_from_constant(advice, 3, Assigned::Trivial(9)).unwrap();
    assert_eq!(region.constrain_constant(cell, Assigned::Zero), Ok(()));
    assert_eq!(region.constants, vec![(Assigned::Trivial(9), with_constant), (Assigned::Zero, cell)]);

    assert_eq!(cs.query_fixed(fixed, 7), Ok(Assigned::Trivial(7)));
    let (_, selectors, permutation) = cs.into_parts();
    assert!(selectors[0][9]);
    let permutation = permutation.unwrap();
    assert_eq!(permutation.len(), 2);
    let (left, right) = permutation.get(0);
    assert_eq!((left.row, right.row), (6, 3));
    let (left, right) = permutation.get(1);
    assert_eq!((left.column, left.row), (advice.any(), 5));
    assert_eq!((right.column, right.row), (Column::new(0, Instance).any(), 9));
}

#[test]
fn the_steps_of_a_region_stop_at_the_first_error() {
    let mut cs = root();
    let starts = vec![RegionStart(3)];
    let fixed = Column::new(0, Fixed);
    let ops = [
        RegionOp::AssignFixed { column: fixed, offset: 0, to: known(1) },
        RegionOp::AssignAdviceFromConstant {
            column: Column::new(0, Advice),
            offset: 0,
            constant: Assigned::Trivial(5),
        },
        RegionOp::AssignFixed { column: Column::new(2, Fixed), offset: 0, to: known(2) },
        RegionOp::AssignFixed { column: fixed, offset: 1, to: known(3) },
    ];
    let (result, constants) = materialize(&mut cs, &starts, RegionIndex(0), &ops, "region");
    assert_eq!(result, Err(Error::BoundsFailure));
    assert_eq!(constants.len(), 1);
    assert_eq!(cs.query_fixed(fixed, 3), Ok(Assigned::Trivial(1)));
    assert_eq!(cs.query_fixed(fixed, 4), Ok(Assigned::Zero));

    let (result, constants) = materialize(&mut cs, &starts, RegionIndex(0), &ops[..2], "region");
    assert_eq!(result, Ok(()));
    assert_eq!(constants[0].0, Assigned::Trivial(5));
    assert_eq!(RegionOp::assigned_cell(&ops[1], RegionIndex(0)), Some(constants[0].1));
    assert_eq!(ops[0].assigned_cell(RegionIndex(4)).unwrap().region_index, RegionIndex(4));
    let selector: RegionOp<u64> = RegionOp::EnableSelector { selector: Selector(0), offset: 0 };
    assert_eq!(selector.assigned_cell(RegionIndex(0)), None);
}

#[test]
fn constants_claim_the_rows_that_they_take() {
    let mut cs = root();
    let mut columns = ColumnOccupancy::new();
    let constants = Column::new(1, Fixed);
    let key = halo2_proofs::column::RegionColumn::Column(constants.any());
    columns.set(key, 4);
    let starts = vec![RegionStart(2)];
    let cell = |row_offset| Cell { region_index: RegionIndex(0), row_offset, column: Column::new(0, Advice).any() };
    let requests = vec![(Assigned::Trivial(1u64), cell(0)), (Assigned::Trivial(2), cell(5))];
    assert_eq!(
        assign_constants_to_column(&mut cs, &mut columns, &starts, &vec![constants], &requests),
        Ok(())
    );
    assert_eq!(columns.get(&key), 6);
    assert_eq!(cs.query_fixed(constants, 4), Ok(Assigned::Trivial(1)));
    assert_eq!(cs.query_fixed(constants, 5), Ok(Assigned::Trivial(2)));
    assert_eq!(cs.query_fixed(Column::new(0, Fixed), 4), Ok(Assigned::Zero));

    // Without requests nothing is written, with or without a column.
    assert_eq!(assign_constants_to_column(&mut cs, &mut columns, &starts, &vec![], &vec![]), Ok(()));
    assert_eq!(assign_constants_to_column(&mut cs, &mut columns, &starts, &vec![constants], &vec![]), Ok(()));
    assert_eq!(columns.get(&key), 6);
    assert_eq!(
        assign_constants_to_column(&mut cs, &mut columns, &starts, &vec![], &requests),
        Err(Error::NotEnoughColumnsForConstants)
    );
    // A constant beyond the usable rows.
    columns.set(key, 9);
    assert_eq!(
        assign_constants_to_column(&mut cs, &mut columns, &starts, &vec![constants], &requests),
        Err(Error::NotEnoughRowsAvailable { current_k: 4 })
    );
}

#[test]
fn values_are_known_or_unknown() {
    assert!(Value::known(3u8).is_known());
    assert!(!Value::<u8>::unknown().is_known());
    assert_eq!(Value::known(3u8).assign(), Ok(3));
    assert_eq!(Value::<u8>::unknown().assign(), Err(Error::Synthesis));
    assert_eq!(Error::not_enough_rows_available(7), Error::NotEnoughRowsAvailable { current_k: 7 });
    assert_eq!(Column::new(3, Fixed).index(), 3);
    assert_eq!(Selector(4).index(), 4);
    assert_eq!(TableColumn::new(Column::new(3, Fixed)).inner(), Column::new(3, Fixed));
    assert_ne!(Column::new(3, Fixed).any(), Column::new(3, Advice).any());
    assert_ne!(Column::new(3, Instance).any(), Column::new(3, Advice).any());
}

#[test]
fn diagnostics_change_nothing() {
    let mut cs = root();
    cs.enter_region("region");
    cs.annotate_column("column", Column::new(0, Fixed).any());
    cs.exit_region();
    let mut layouter = SingleChipLayouter::new(&mut cs, vec![]).unwrap();
    layouter.push_namespace("gadget");
    layouter.pop_namespace(Some(String::from("gadget")));
    assert_eq!(layouter.get_challenge(Challenge { index: 1, phase: 0 }), Value::<u64>::unknown());
    assert!(layouter.regions.is_empty());
    let (fixed, selectors, permutation) = cs.into_parts();
    assert!(fixed.iter().flatten().all(|cell| *cell == Assigned::Zero));
    assert!(selectors.iter().flatten().all(|on| !on));
    assert_eq!(permutation.unwrap().len(), 0);
}
