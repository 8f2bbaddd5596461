use halo2_proofs::cell::RegionIndex;
use halo2_proofs::column::{Advice, Any, Column, Fixed, RegionColumn};
use halo2_proofs::occupancy::ColumnOccupancy;
use halo2_proofs::shape::{RegionOp, RegionShape};
use halo2_proofs::value::{Assigned, Value};

fn advice(index: usize) -> Column<Advice> {
    Column::new(index, Advice)
}

fn write(column: usize, offset: usize) -> RegionOp<u64> {
    RegionOp::AssignAdvice { column: advice(column), offset, to: Value::known(Assigned::Trivial(1)) }
}

#[test]
fn second_region_waits_for_the_shared_column() {
    // A uses X and Y over three rows, B uses Y and Z over two rows.
    let (x, y, z) = (0, 1, 2);
    let a = RegionShape::probe(RegionIndex(0), &[write(x, 0), write(y, 2)]);
    let b = RegionShape::probe(RegionIndex(1), &[write(y, 0), write(z, 1)]);
    assert_eq!(a.row_count(), 3);
    assert_eq!(b.row_count(), 2);

    let mut occupancy = ColumnOccupancy::new();
    assert_eq!(occupancy.place(&a), 0);
    assert_eq!(occupancy.get(&RegionColumn::Column(advice(x).any())), 3);
    assert_eq!(occupancy.get(&RegionColumn::Column(advice(y).any())), 3);
    assert_eq!(occupancy.get(&RegionColumn::Column(advice(z).any())), 0);

    assert_eq!(occupancy.place(&b), 3);
    assert_eq!(occupancy.get(&RegionColumn::Column(advice(x).any())), 3);
    assert_eq!(occupancy.get(&RegionColumn::Column(advice(y).any())), 5);
    assert_eq!(occupancy.get(&RegionColumn::Column(advice(z).any())), 5);
}

#[test]
fn columns_of_different_kinds_do_not_share_rows() {
    let mut occupancy = ColumnOccupancy::new();
    let fixed = RegionColumn::Column(Column::new(0, Fixed).any());
    let any_advice = RegionColumn::Column(Column::new(0, Any::Advice));
    occupancy.set(fixed, 7);
    assert_eq!(occupancy.get(&fixed), 7);
    assert_eq!(occupancy.get(&any_advice), 0);
}
