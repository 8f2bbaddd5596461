use halo2_proofs::assembly::Assembly;
use halo2_proofs::column::{Advice, Challenge, Column, Fixed, Instance, Selector};
use halo2_proofs::error::Error;
use halo2_proofs::value::{Assigned, Value};

fn known(value: u64) -> Value<Assigned<u64>> {
    Value::known(Assigned::Trivial(value))
}

/// A grid of 16 rows of which the first 10 are usable, with 2 fixed columns and 2 selectors.
fn root() -> Assembly<u64> {
    Assembly::new(4, 16, 2, 2, 0..10)
}

#[test]
fn a_new_assembly_is_empty() {
    let cs = root();
    assert_eq!(cs.k(), 4);
    assert_eq!(cs.rw_rows(), 0..10);
    assert_eq!(cs.usable_rows(), 0..10);
    assert_eq!(cs.query_fixed(Column::new(1, Fixed), 9), Ok(Assigned::Zero));
    let (fixed, selectors, permutation) = cs.into_parts();
    assert_eq!(fixed.len(), 2);
    assert_eq!(selectors.len(), 2);
    assert!(fixed.iter().all(|column| column.len() == 16));
    assert!(selectors.iter().all(|column| column.len() == 16 && column.iter().all(|on| !on)));
    assert_eq!(permutation.unwrap().len(), 0);
}

#[test]
fn a_fixed_cell_holds_what_was_assigned() {
    let mut cs = root();
    let column = Column::new(1, Fixed);
    assert_eq!(cs.assign_fixed(column, 3, known(7)), Ok(()));
    assert_eq!(cs.query_fixed(column, 3), Ok(Assigned::Trivial(7)));
    assert_eq!(cs.query_fixed(column, 2), Ok(Assigned::Zero));
    assert_eq!(cs.query_fixed(Column::new(0, Fixed), 3), Ok(Assigned::Zero));
    assert_eq!(cs.assign_fixed(column, 3, Value::known(Assigned::Rational(1, 2))), Ok(()));
    assert_eq!(cs.query_fixed(column, 3), Ok(Assigned::Rational(1, 2)));
}

#[test]
fn assign_fixed_reports_each_error() {
    let mut cs = root();
    let column = Column::new(0, Fixed);
    assert_eq!(
        cs.assign_fixed(column, 10, known(1)),
        Err(Error::NotEnoughRowsAvailable { current_k: 4 })
    );
    assert_eq!(cs.assign_fixed(column, 9, Value::unknown()), Err(Error::Synthesis));
    assert_eq!(cs.assign_fixed(Column::new(2, Fixed), 9, known(1)), Err(Error::BoundsFailure));
    // A row that is not usable is reported before anything else.
    assert_eq!(
        cs.assign_fixed(Column::new(2, Fixed), 11, Value::unknown()),
        Err(Error::NotEnoughRowsAvailable { current_k: 4 })
    );
    // An unknown value is reported before a missing column.
    assert_eq!(cs.assign_fixed(Column::new(2, Fixed), 9, Value::unknown()), Err(Error::Synthesis));
    assert_eq!(cs.query_fixed(column, 9), Ok(Assigned::Zero));
}

#[test]
fn query_fixed_reports_each_error() {
    let cs = root();
    assert_eq!(
        cs.query_fixed(Column::new(0, Fixed), 10),
        Err(Error::NotEnoughRowsAvailable { current_k: 4 })
    );
    assert_eq!(cs.query_fixed(Column::new(5, Fixed), 0), Err(Error::BoundsFailure));
}

#[test]
fn enable_selector_switches_one_row_on() {
    let mut cs = root();
    assert_eq!(cs.enable_selector(&Selector(1), 4), Ok(()));
    assert_eq!(
        cs.enable_selector(&Selector(1), 10),
        Err(Error::NotEnoughRowsAvailable { current_k: 4 })
    );
    assert_eq!(cs.enable_selector(&Selector(2), 4), Err(Error::BoundsFailure));
    let (_, selectors, _) = cs.into_parts();
    let on: Vec<usize> = (0..16).filter(|row| selectors[1][*row]).collect();
    assert_eq!(on, vec![4]);
    assert!(selectors[0].iter().all(|on| !on));
}

#[test]
fn advice_and_instance_are_not_stored() {
    let mut cs = root();
    let advice = Column::new(0, Advice);
    assert_eq!(cs.assign_advice(advice, 3, known(5)), Ok(()));
    // Advice is accepted on any row, and reads as zero.
    assert_eq!(cs.assign_advice(advice, 1_000_000, Value::unknown()), Ok(()));
    assert_eq!(cs.query_advice(advice, 3), Ok(Assigned::Zero));
    assert_eq!(cs.query_instance(Column::new(0, Instance), 9), Ok(Value::unknown()));
    assert_eq!(
        cs.query_instance(Column::new(0, Instance), 10),
        Err(Error::NotEnoughRowsAvailable { current_k: 4 })
    );
    assert_eq!(cs.get_challenge(Challenge { index: 0, phase: 0 }), Value::unknown());
}

#[test]
fn copies_reach_the_builder_in_order() {
    let mut cs = root();
    let a = Column::new(0, Advice).any();
    let f = Column::new(1, Fixed).any();
    assert_eq!(cs.copy(a, 1, f, 2), Ok(()));
    assert_eq!(cs.copy(f, 9, a, 0), Ok(()));
    assert_eq!(cs.copy(a, 10, f, 2), Err(Error::NotEnoughRowsAvailable { current_k: 4 }));
    assert_eq!(cs.copy(a, 1, f, 16), Err(Error::NotEnoughRowsAvailable { current_k: 4 }));
    let (_, _, permutation) = cs.into_parts();
    let permutation = permutation.unwrap();
    assert_eq!(permutation.len(), 2);
    let (left, right) = permutation.get(0);
    assert_eq!((left.column, left.row, right.column, right.row), (a, 1, f, 2));
    let (left, right) = permutation.get(1);
    assert_eq!((left.column, left.row, right.column, right.row), (f, 9, a, 0));
}

#[test]
fn fill_from_row_fills_the_usable_rows_that_follow() {
    let mut cs = root();
    let column = Column::new(0, Fixed);
    cs.assign_fixed(column, 2, known(1)).unwrap();
    assert_eq!(cs.fill_from_row(column, 3, known(8)), Ok(()));
    let (fixed, _, _) = cs.into_parts();
    let expected: Vec<Assigned<u64>> = (0..16)
        .map(|row| match row {
            2 => Assigned::Trivial(1),
            3..=9 => Assigned::Trivial(8),
            _ => Assigned::Zero,
        })
        .collect();
    assert_eq!(fixed[0], expected);
    assert!(fixed[1].iter().all(|cell| *cell == Assigned::Zero));
}

#[test]
fn fill_from_row_reports_each_error() {
    let mut cs = root();
    let column = Column::new(0, Fixed);
    assert_eq!(
        cs.fill_from_row(column, 10, known(8)),
        Err(Error::NotEnoughRowsAvailable { current_k: 4 })
    );
    assert_eq!(cs.fill_from_row(Column::new(2, Fixed), 3, known(8)), Err(Error::BoundsFailure));
    assert_eq!(cs.fill_from_row(column, 3, Value::unknown()), Err(Error::Synthesis));
    assert_eq!(cs.query_fixed(column, 3), Ok(Assigned::Zero));
}

#[test]
fn fork_hands_out_disjoint_windows() {
    let mut cs = root();
    let column = Column::new(0, Fixed);
    cs.assign_fixed(column, 4, known(4)).unwrap();
    let mut subs = cs.fork(&[1..3, 3..3, 4..9]).unwrap();
    assert_eq!(subs.len(), 3);
    assert_eq!(subs[0].rw_rows(), 1..3);
    assert_eq!(subs[1].rw_rows(), 3..3);
    assert_eq!(subs[2].rw_rows(), 4..9);
    assert!(subs.iter().all(|sub| sub.usable_rows() == (0..10) && sub.k() == 4));

    // A context sees what the parent held in its rows, and writes to its own rows only.
    assert_eq!(subs[2].query_fixed(column, 4), Ok(Assigned::Trivial(4)));
    assert_eq!(subs[2].assign_fixed(column, 8, known(8)), Ok(()));
    assert_eq!(subs[2].assign_fixed(column, 3, known(3)), Err(Error::Synthesis));
    assert_eq!(subs[2].assign_fixed(column, 9, known(9)), Err(Error::Synthesis));
    assert_eq!(subs[0].query_fixed(column, 4), Err(Error::Synthesis));
    assert_eq!(subs[0].enable_selector(&Selector(0), 0), Err(Error::Synthesis));
    assert_eq!(subs[0].enable_selector(&Selector(0), 2), Ok(()));
    assert_eq!(
        subs[0].assign_fixed(column, 12, known(1)),
        Err(Error::NotEnoughRowsAvailable { current_k: 4 })
    );
    // The parent is untouched until the merge.
    assert_eq!(cs.query_fixed(column, 8), Ok(Assigned::Zero));
}

#[test]
fn fork_refuses_malformed_ranges() {
    let cs = root();
    // Overlap.
    assert_eq!(cs.fork(&[0..4, 3..6]).unwrap_err(), Error::Synthesis);
    // Descending order.
    assert_eq!(cs.fork(&[4..6, 0..2]).unwrap_err(), Error::Synthesis);
    // Beyond the window.
    assert_eq!(cs.fork(&[0..4, 4..11]).unwrap_err(), Error::Synthesis);
    assert_eq!(cs.fork(&[0..11, 11..11]).unwrap_err(), Error::Synthesis);
    // An end before its start.
    #[allow(clippy::reversed_empty_ranges)]
    let inverted = 5..3;
    assert_eq!(cs.fork(&[inverted, 3..6]).unwrap_err(), Error::Synthesis);
    // No range at all, and ranges with gaps, are in order.
    assert_eq!(cs.fork(&[]).unwrap().len(), 0);
    assert_eq!(cs.fork(&[0..0, 2..5, 7..10]).unwrap().len(), 3);

    // A forked context hands out rows of its own window only.
    let subs = cs.fork(&[2..6]).unwrap();
    assert_eq!(subs[0].fork(&[1..3]).unwrap_err(), Error::Synthesis);
    assert_eq!(subs[0].fork(&[2..3, 5..7]).unwrap_err(), Error::Synthesis);
    let nested = subs[0].fork(&[2..3, 5..6]).unwrap();
    assert_eq!(nested[1].rw_rows(), 5..6);
}

#[test]
fn merge_takes_rows_back_and_replays_copies_in_order() {
    let mut cs = root();
    let column = Column::new(1, Fixed);
    let a = Column::new(0, Advice).any();
    cs.copy(a, 0, a, 1).unwrap();
    let mut subs = cs.fork(&[0..5, 5..10]).unwrap();
    // The second context works first.
    subs[1].assign_fixed(column, 7, known(70)).unwrap();
    subs[1].enable_selector(&Selector(0), 5).unwrap();
    subs[1].copy(a, 5, a, 6).unwrap();
    subs[1].copy(a, 7, a, 6).unwrap();
    subs[0].assign_fixed(column, 0, known(10)).unwrap();
    subs[0].copy(a, 2, a, 3).unwrap();
    assert_eq!(cs.merge(subs), Ok(()));

    assert_eq!(cs.query_fixed(column, 7), Ok(Assigned::Trivial(70)));
    assert_eq!(cs.query_fixed(column, 0), Ok(Assigned::Trivial(10)));
    assert_eq!(cs.query_fixed(column, 5), Ok(Assigned::Zero));
    let (_, selectors, permutation) = cs.into_parts();
    assert!(selectors[0][5]);
    assert_eq!(selectors[0].iter().filter(|on| **on).count(), 1);
    let permutation = permutation.unwrap();
    let rows: Vec<(usize, usize)> =
        (0..permutation.len()).map(|i| permutation.get(i)).map(|(l, r)| (l.row, r.row)).collect();
    // First what the parent had, then the contexts in their order.
    assert_eq!(rows, vec![(0, 1), (2, 3), (5, 6), (7, 6)]);
}

#[test]
fn merge_into_a_forked_context_keeps_the_copies_for_the_next_merge() {
    let mut cs = root();
    let a = Column::new(0, Advice).any();
    let mut subs = cs.fork(&[0..10]).unwrap();
    let mut inner = subs[0].fork(&[0..4, 4..8]).unwrap();
    inner[1].copy(a, 4, a, 5).unwrap();
    inner[0].copy(a, 0, a, 1).unwrap();
    subs[0].copy(a, 8, a, 9).unwrap();
    assert_eq!(subs[0].merge(inner), Ok(()));
    assert_eq!(cs.merge(subs), Ok(()));
    let (_, _, permutation) = cs.into_parts();
    let permutation = permutation.unwrap();
    let rows: Vec<(usize, usize)> =
        (0..permutation.len()).map(|i| permutation.get(i)).map(|(l, r)| (l.row, r.row)).collect();
    assert_eq!(rows, vec![(8, 9), (0, 1), (4, 5)]);
}

#[test]
fn merge_refuses_a_context_of_another_grid() {
    let mut cs = root();
    let other: Assembly<u64> = Assembly::new(4, 16, 3, 2, 0..10);
    let mut subs = other.fork(&[0..5]).unwrap();
    subs[0].assign_fixed(Column::new(0, Fixed), 1, known(1)).unwrap();
    assert_eq!(cs.merge(subs), Err(Error::Synthesis));
    assert_eq!(cs.query_fixed(Column::new(0, Fixed), 1), Ok(Assigned::Zero));

    let wide: Assembly<u64> = Assembly::new(4, 16, 2, 2, 0..12);
    let mut narrow: Assembly<u64> = Assembly::new(4, 16, 2, 2, 0..8);
    assert_eq!(narrow.merge(wide.fork(&[6..9]).unwrap()), Err(Error::Synthesis));
}
