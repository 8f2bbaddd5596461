use halo2_proofs::cell::{Cell, RegionIndex};
use halo2_proofs::column::{Advice, Column, Fixed, Instance, RegionColumn, Selector};
use halo2_proofs::shape::{RegionOp, RegionShape};
use halo2_proofs::value::{Assigned, Value};

#[test]
fn a_region_without_steps_has_no_rows() {
    let shape = RegionShape::probe::<u64>(RegionIndex(5), &[]);
    assert_eq!(shape.region_index(), RegionIndex(5));
    assert_eq!(shape.row_count(), 0);
    assert!(shape.columns().is_empty());
}

#[test]
fn the_row_count_is_one_more_than_the_largest_offset() {
    let advice = Column::new(0, Advice);
    let ops: [RegionOp<u64>; 3] = [
        RegionOp::AssignAdvice { column: advice, offset: 4, to: Value::unknown() },
        RegionOp::AssignAdvice { column: advice, offset: 9, to: Value::unknown() },
        RegionOp::AssignAdvice { column: advice, offset: 0, to: Value::unknown() },
    ];
    let shape = RegionShape::probe(RegionIndex(0), &ops);
    assert_eq!(shape.row_count(), 10);
    assert_eq!(shape.columns(), &vec![RegionColumn::Column(advice.any())]);
}

#[test]
fn every_kind_of_step_is_measured() {
    let advice = Column::new(0, Advice);
    let other = Column::new(1, Advice);
    let fixed = Column::new(0, Fixed);
    let cell = Cell { region_index: RegionIndex(0), row_offset: 100, column: advice.any() };
    let ops: [RegionOp<u64>; 7] = [
        RegionOp::EnableSelector { selector: Selector(0), offset: 1 },
        RegionOp::AssignAdvice { column: advice, offset: 0, to: Value::unknown() },
        RegionOp::AssignAdviceFromConstant { column: other, offset: 2, constant: Assigned::Zero },
        RegionOp::AssignAdviceFromInstance {
            instance: Column::new(0, Instance),
            row: 50,
            advice,
            offset: 3,
        },
        RegionOp::AssignFixed { column: fixed, offset: 0, to: Value::unknown() },
        // Constraints between cells take no row.
        RegionOp::ConstrainConstant { cell, constant: Assigned::Zero },
        RegionOp::ConstrainEqual { left: cell, right: cell },
    ];
    let shape = RegionShape::probe(RegionIndex(0), &ops);
    assert_eq!(shape.row_count(), 4);
    // Each column once, in the order of first use; the instance column is not part of the region.
    assert_eq!(
        shape.columns(),
        &vec![
            RegionColumn::Selector(Selector(0)),
            RegionColumn::Column(advice.any()),
            RegionColumn::Column(other.any()),
            RegionColumn::Column(fixed.any()),
        ]
    );
}

#[test]
fn columns_of_different_kinds_with_one_index_are_different() {
    let ops: [RegionOp<u64>; 3] = [
        RegionOp::AssignAdvice { column: Column::new(0, Advice), offset: 0, to: Value::unknown() },
        RegionOp::AssignFixed { column: Column::new(0, Fixed), offset: 0, to: Value::unknown() },
        RegionOp::EnableSelector { selector: Selector(0), offset: 0 },
    ];
    let shape = RegionShape::probe(RegionIndex(0), &ops);
    assert_eq!(shape.columns().len(), 3);
    let keys: Vec<u128> = shape.columns().iter().map(|column| column.key()).collect();
    assert_eq!(keys, vec![0, 1, 3]);
    assert_eq!(RegionColumn::Column(Column::new(2, Instance).any()).key(), 10);
}
