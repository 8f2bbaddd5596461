use halo2_proofs::assembly::Assembly;
use halo2_proofs::cell::{Cell, RegionIndex};
use halo2_proofs::circuit::{Circuit, ConstraintSystem, Step};
use halo2_proofs::column::{Advice, Column, Fixed, Instance, Selector};
use halo2_proofs::error::Error;
use halo2_proofs::keygen::{keygen_vk, Params};
use halo2_proofs::shape::RegionOp;
use halo2_proofs::single_pass::{SimpleFloorPlanner, SingleChipLayouter};
use halo2_proofs::value::{Assigned, Value};
use pasta_curves::vesta;

fn config(num_advice_columns: usize, constants: Vec<Column<Fixed>>) -> ConstraintSystem {
    ConstraintSystem {
        num_fixed_columns: constants.len(),
        num_advice_columns,
        num_instance_columns: 0,
        num_selectors: 0,
        constants,
        blinding_factors: 5,
        degree: 3,
    }
}

#[test]
fn not_enough_columns_for_constants() {
    // One advice column, and no column for constants.
    let advice = Column::new(0, Advice);
    let one = vesta::Scalar::one();
    let circuit = Circuit {
        config: config(1, vec![]),
        steps: vec![Step::AssignRegion {
            name: String::from("assign constant"),
            ops: vec![RegionOp::AssignAdviceFromConstant {
                column: advice,
                offset: 0,
                constant: Assigned::Trivial(one),
            }],
        }],
    };

    let params = Params::new(3).unwrap();
    assert!(matches!(
        keygen_vk(&params, &circuit).unwrap_err(),
        Error::NotEnoughColumnsForConstants,
    ));
}

#[test]
fn constants_go_to_the_first_constants_column_in_order() {
    let advice = Column::new(0, Advice);
    let constants = Column::new(0, Fixed);
    let mut cs: Assembly<u64> = Assembly::new(4, 16, 1, 0, 0..10);
    let mut layouter = SingleChipLayouter::new(&mut cs, vec![constants]).unwrap();
    let ops = [
        RegionOp::AssignAdviceFromConstant { column: advice, offset: 0, constant: Assigned::Trivial(7) },
        RegionOp::AssignAdviceFromConstant { column: advice, offset: 1, constant: Assigned::Trivial(9) },
    ];
    assert_eq!(layouter.assign_region("first", &ops), Ok(RegionIndex(0)));
    assert_eq!(layouter.assign_region("second", &ops), Ok(RegionIndex(1)));

    assert!(matches!(cs.query_fixed(constants, 0), Ok(Assigned::Trivial(7))));
    assert!(matches!(cs.query_fixed(constants, 1), Ok(Assigned::Trivial(9))));
    assert!(matches!(cs.query_fixed(constants, 2), Ok(Assigned::Trivial(7))));
    assert!(matches!(cs.query_fixed(constants, 3), Ok(Assigned::Trivial(9))));
    assert!(matches!(cs.query_fixed(constants, 4), Ok(Assigned::Zero)));

    let (_, _, permutation) = cs.into_parts();
    let permutation = permutation.unwrap();
    assert_eq!(permutation.len(), 4);
    // The second region starts at row 2 of the advice column.
    let (left, right) = permutation.get(3);
    assert_eq!((left.column, left.row), (constants.any(), 3));
    assert_eq!((right.column, right.row), (advice.any(), 3));
    let (left, right) = permutation.get(0);
    assert_eq!((left.column, left.row), (constants.any(), 0));
    assert_eq!((right.column, right.row), (advice.any(), 0));
}

#[test]
fn region_rows_are_counted_from_its_start() {
    let fixed = Column::new(0, Fixed);
    let other = Column::new(1, Fixed);
    let mut cs: Assembly<u64> = Assembly::new(4, 16, 2, 1, 0..10);
    let mut layouter = SingleChipLayouter::new(&mut cs, vec![]).unwrap();
    let first = [
        RegionOp::AssignFixed { column: fixed, offset: 2, to: Value::known(Assigned::Trivial(1)) },
    ];
    let second = [
        RegionOp::AssignFixed { column: fixed, offset: 1, to: Value::known(Assigned::Trivial(2)) },
        RegionOp::AssignFixed { column: other, offset: 0, to: Value::known(Assigned::Trivial(3)) },
        RegionOp::EnableSelector { selector: Selector(0), offset: 1 },
        RegionOp::ConstrainEqual {
            left: Cell { region_index: RegionIndex(0), row_offset: 2, column: fixed.any() },
            right: Cell { region_index: RegionIndex(1), row_offset: 1, column: fixed.any() },
        },
    ];
    layouter.assign_region("first", &first).unwrap();
    layouter.assign_region("second", &second).unwrap();
    layouter
        .constrain_instance(
            Cell { region_index: RegionIndex(1), row_offset: 0, column: other.any() },
            Column::new(0, Instance),
            5,
        )
        .unwrap();

    // The first region takes rows 0 to 2 of `fixed`, so the second starts at row 3.
    assert!(matches!(cs.query_fixed(fixed, 2), Ok(Assigned::Trivial(1))));
    assert!(matches!(cs.query_fixed(fixed, 4), Ok(Assigned::Trivial(2))));
    assert!(matches!(cs.query_fixed(other, 3), Ok(Assigned::Trivial(3))));
    assert!(matches!(cs.query_fixed(other, 0), Ok(Assigned::Zero)));
    let (_, selectors, permutation) = cs.into_parts();
    assert_eq!(selectors[0][4], true);
    assert_eq!(selectors[0].iter().filter(|on| **on).count(), 1);
    let permutation = permutation.unwrap();
    assert_eq!(permutation.len(), 2);
    let (left, right) = permutation.get(0);
    assert_eq!((left.row, right.row), (2, 4));
    let (left, right) = permutation.get(1);
    assert_eq!((left.column, left.row), (other.any(), 3));
    assert_eq!((right.column, right.row), (Column::new(0, Instance).any(), 5));
}

#[test]
fn synthesis_stops_at_the_first_error() {
    let fixed = Column::new(0, Fixed);
    let circuit: Circuit<u64> = Circuit {
        config: config(0, vec![]),
        steps: vec![
            Step::AssignRegion {
                name: String::from("unknown value"),
                ops: vec![RegionOp::AssignFixed { column: fixed, offset: 0, to: Value::unknown() }],
            },
            Step::AssignRegion {
                name: String::from("never reached"),
                ops: vec![RegionOp::AssignFixed {
                    column: Column::new(9, Fixed),
                    offset: 0,
                    to: Value::known(Assigned::Zero),
                }],
            },
        ],
    };
    let mut cs: Assembly<u64> = Assembly::new(4, 16, 1, 0, 0..10);
    assert_eq!(SimpleFloorPlanner::synthesize(&mut cs, &circuit, vec![]), Err(Error::Synthesis));
}
