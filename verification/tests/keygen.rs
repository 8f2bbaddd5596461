use halo2_proofs::cell::{Cell, RegionIndex};
use halo2_proofs::circuit::{Circuit, ConstraintSystem, Step};
use halo2_proofs::column::{Advice, Column, Fixed, Instance, Selector, TableColumn};
use halo2_proofs::error::Error;
use halo2_proofs::keygen::{
    admits, create_domain, keygen_pk, keygen_pk2, keygen_pk_impl, keygen_vk, Params,
};
use halo2_proofs::shape::RegionOp;
use halo2_proofs::table::TableCell;
use halo2_proofs::value::{Assigned, Value};
use pasta_curves::vesta;

fn config() -> ConstraintSystem {
    ConstraintSystem {
        num_fixed_columns: 3,
        num_advice_columns: 1,
        num_instance_columns: 1,
        num_selectors: 1,
        constants: vec![Column::new(2, Fixed)],
        blinding_factors: 5,
        degree: 4,
    }
}

fn known(value: u64) -> Value<Assigned<vesta::Scalar>> {
    Value::known(Assigned::Trivial(vesta::Scalar::from(value)))
}

fn circuit() -> Circuit<vesta::Scalar> {
    let advice = Column::new(0, Advice);
    let fixed = Column::new(0, Fixed);
    let one = vesta::Scalar::one();
    Circuit {
        config: config(),
        steps: vec![
            Step::AssignTable {
                name: String::from("table"),
                cells: vec![
                    TableCell { column: TableColumn::new(Column::new(1, Fixed)), offset: 0, to: known(3) },
                    TableCell { column: TableColumn::new(Column::new(1, Fixed)), offset: 1, to: known(4) },
                ],
            },
            Step::AssignRegion {
                name: String::from("first"),
                ops: vec![
                    RegionOp::AssignFixed { column: fixed, offset: 0, to: known(10) },
                    RegionOp::AssignFixed { column: fixed, offset: 1, to: known(11) },
                    RegionOp::AssignAdviceFromConstant {
                        column: advice,
                        offset: 1,
                        constant: Assigned::Trivial(one),
                    },
                ],
            },
            Step::AssignRegions {
                name: String::from("batch"),
                assignments: vec![
                    vec![
                        RegionOp::AssignFixed { column: fixed, offset: 0, to: known(20) },
                        RegionOp::EnableSelector { selector: Selector(0), offset: 0 },
                    ],
                    vec![RegionOp::AssignFixed { column: fixed, offset: 0, to: known(30) }],
                ],
            },
            Step::ConstrainInstance {
                cell: Cell { region_index: RegionIndex(2), row_offset: 0, column: fixed.any() },
                instance: Column::new(0, Instance),
                row: 1,
            },
        ],
    }
}

#[test]
fn a_grid_is_two_to_the_k_rows_high() {
    assert_eq!(Params::new(0).unwrap().n(), 1);
    assert_eq!(Params::new(4).unwrap().n(), 16);
    assert_eq!(Params::new(4).unwrap().k(), 4);
    assert_eq!(Params::new(31).unwrap().n(), 1 << 31);
    assert!(Params::new(usize::BITS - 1).is_some());
    assert!(Params::new(usize::BITS).is_none());
    assert!(Params::new(u32::MAX).is_none());
}

#[test]
fn the_domain_has_the_size_of_the_grid_and_the_degree_of_the_circuit() {
    let (domain, cs) = create_domain(5, &circuit());
    assert_eq!((domain.k, domain.n, domain.degree), (5, 32, 4));
    assert_eq!(cs.constants, vec![Column::new(2, Fixed)]);
    assert_eq!(cs.blinding_factors(), 5);
    assert_eq!(cs.minimum_rows(), 8);
    assert_eq!((cs.num_fixed_columns, cs.num_selectors), (3, 1));
}

#[test]
fn a_grid_below_the_minimum_is_refused_with_its_size() {
    // The circuit needs 8 rows at the least.
    for k in 0..3 {
        let params = Params::new(k).unwrap();
        assert!(admits(&params, &circuit()));
        assert_eq!(
            keygen_vk(&params, &circuit()).unwrap_err(),
            Error::NotEnoughRowsAvailable { current_k: k }
        );
        assert_eq!(
            keygen_pk2(&params, &circuit()).unwrap_err(),
            Error::NotEnoughRowsAvailable { current_k: k }
        );
    }
    // With 8 rows the circuit has 2 usable rows, which its table fills.
    let params = Params::new(3).unwrap();
    assert_eq!(
        keygen_vk(&params, &circuit()).unwrap_err(),
        Error::NotEnoughRowsAvailable { current_k: 3 }
    );
}

#[test]
fn the_verifying_key_holds_the_layout() {
    let params = Params::new(4).unwrap();
    assert!(admits(&params, &circuit()));
    let vk = keygen_vk(&params, &circuit()).unwrap();
    assert_eq!((vk.domain.k, vk.domain.n, vk.domain.degree), (4, 16, 4));
    assert_eq!(vk.cs.constants, vec![Column::new(2, Fixed)]);

    let zero = Assigned::Zero;
    let value = |v: u64| Assigned::Trivial(vesta::Scalar::from(v));
    // Rows 10 to 15 are kept for blinding and the row before them.
    let column = |cells: &[Assigned<vesta::Scalar>]| -> Vec<Assigned<vesta::Scalar>> {
        let mut column = cells.to_vec();
        column.resize(16, zero);
        column
    };
    assert_eq!(vk.fixed.len(), 3);
    assert_eq!(vk.fixed[0], column(&[value(10), value(11), value(20), value(30)]));
    assert_eq!(
        vk.fixed[1],
        column(&[value(3), value(4), value(3), value(3), value(3), value(3), value(3), value(3), value(3), value(3)])
    );
    assert_eq!(vk.fixed[2], column(&[value(1)]));
    assert_eq!(vk.selectors.len(), 1);
    let on: Vec<usize> = (0..16).filter(|row| vk.selectors[0][*row]).collect();
    assert_eq!(on, vec![2]);

    assert_eq!(vk.permutation.len(), 2);
    let (left, right) = vk.permutation.get(0);
    assert_eq!((left.column, left.row), (Column::new(2, Fixed).any(), 0));
    assert_eq!((right.column, right.row), (Column::new(0, Advice).any(), 1));
    let (left, right) = vk.permutation.get(1);
    assert_eq!((left.column, left.row), (Column::new(0, Fixed).any(), 3));
    assert_eq!((right.column, right.row), (Column::new(0, Instance).any(), 1));
}

#[test]
fn the_proving_key_marks_the_first_the_last_and_the_active_rows() {
    let params = Params::new(4).unwrap();
    let pk = keygen_pk2(&params, &circuit()).unwrap();
    let rows = |on: &dyn Fn(usize) -> bool| -> Vec<bool> { (0..16).map(on).collect() };
    assert_eq!(pk.l0, rows(&|row| row == 0));
    assert_eq!(pk.l_last, rows(&|row| row == 10));
    assert_eq!(pk.l_active_row, rows(&|row| row < 10));

    let vk = keygen_vk(&params, &circuit()).unwrap();
    assert_eq!(pk.fixed_values, vk.fixed);
    assert_eq!(pk.vk.fixed, vk.fixed);
    assert_eq!(pk.vk.selectors, vk.selectors);
    assert_eq!(pk.permutation.len(), 2);
    assert_eq!(pk.vk.permutation.len(), 2);
    assert_eq!(pk.permutation.get(1).0.row, vk.permutation.get(1).0.row);
}

#[test]
fn the_proving_key_keeps_the_verifying_key_that_it_is_given() {
    let params = Params::new(4).unwrap();
    let mut other = circuit();
    other.steps.truncate(1);
    let vk = keygen_vk(&params, &other).unwrap();
    assert_eq!(vk.permutation.len(), 0);
    let pk = keygen_pk(&params, vk, &circuit()).unwrap();
    // The key that was given, and the layout of the circuit.
    assert_eq!(pk.vk.permutation.len(), 0);
    assert_eq!(pk.vk.fixed[0][0], Assigned::Zero);
    assert_eq!(pk.permutation.len(), 2);
    assert_eq!(pk.fixed_values[0][0], Assigned::Trivial(vesta::Scalar::from(10)));

    let vk = keygen_vk(&params, &other).unwrap();
    let pk = keygen_pk_impl(&params, Some(vk), &circuit()).unwrap();
    assert_eq!(pk.vk.permutation.len(), 0);
    let pk = keygen_pk_impl(&params, None, &circuit()).unwrap();
    assert_eq!(pk.vk.permutation.len(), 2);
}

#[test]
fn key_generation_is_deterministic() {
    let params = Params::new(5).unwrap();
    let first = keygen_vk(&params, &circuit()).unwrap();
    let second = keygen_vk(&params, &circuit()).unwrap();
    assert_eq!(first.fixed, second.fixed);
    assert_eq!(first.selectors, second.selectors);
    assert_eq!(first.permutation.len(), second.permutation.len());
    for i in 0..first.permutation.len() {
        assert_eq!(first.permutation.get(i), second.permutation.get(i));
    }
}

#[test]
fn a_circuit_that_names_a_region_that_is_not_placed_is_not_admitted() {
    let params = Params::new(4).unwrap();
    let mut wrong = circuit();
    wrong.steps.push(Step::ConstrainInstance {
        cell: Cell { region_index: RegionIndex(3), row_offset: 0, column: Column::new(0, Fixed).any() },
        instance: Column::new(0, Instance),
        row: 1,
    });
    assert!(!admits(&params, &wrong));

    // Nothing is asked of the steps that follow a step that fails.
    let mut failing = circuit();
    failing.steps.insert(
        0,
        Step::AssignRegion {
            name: String::from("fails"),
            ops: vec![RegionOp::AssignFixed { column: Column::new(0, Fixed), offset: 0, to: Value::unknown() }],
        },
    );
    failing.steps.push(Step::ConstrainInstance {
        cell: Cell { region_index: RegionIndex(9), row_offset: 0, column: Column::new(0, Fixed).any() },
        instance: Column::new(0, Instance),
        row: 1,
    });
    assert!(admits(&params, &failing));
    assert_eq!(keygen_vk(&params, &failing).unwrap_err(), Error::Synthesis);

    // A region whose rows the machine cannot number.
    let mut huge = circuit();
    huge.steps.push(Step::AssignRegion {
        name: String::from("huge"),
        ops: vec![RegionOp::AssignAdvice { column: Column::new(0, Advice), offset: usize::MAX, to: Value::unknown() }],
    });
    assert!(!admits(&params, &huge));
    let mut far = circuit();
    far.steps.push(Step::AssignRegion {
        name: String::from("far"),
        ops: vec![RegionOp::AssignAdvice { column: Column::new(0, Advice), offset: usize::MAX - 2, to: Value::unknown() }],
    });
    assert!(!admits(&params, &far));

    let mut overflowing = config();
    overflowing.blinding_factors = usize::MAX - 2;
    assert!(!admits(&params, &Circuit::<u64> { config: overflowing, steps: vec![] }));
}
