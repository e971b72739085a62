use qoala::drivers::{check_shapes, pair_count, GrapeXyCost};

/// A placeholder operator: the checks only read the layout.
#[derive(Clone, Debug)]
struct Op;

#[test]
fn pair_count_reads_the_operator_layout() {
    let ops: Vec<Vec<Option<Op>>> = vec![vec![None; 6], vec![None; 6]];
    assert_eq!(pair_count(&ops).unwrap(), 2);
    let bad: Vec<Vec<Option<Op>>> = vec![vec![None; 5]];
    assert!(pair_count(&bad).is_err());
}

#[test]
fn an_empty_operator_array_is_missing() {
    let none: Vec<Vec<Option<Op>>> = vec![];
    assert_eq!(pair_count(&none).unwrap_err().message(), "missing configuration: cartops");
}

#[test]
fn shapes_must_agree() {
    let ops: Vec<Vec<Option<Op>>> = vec![vec![None; 6], vec![Some(Op); 6]];
    assert!(check_shapes(&ops, 2, 2, 2).is_ok());
    assert_eq!(
        check_shapes(&ops, 3, 2, 2).unwrap_err().message(),
        "dimension mismatch: cartops has 2 rows but there are 3 spins"
    );
    let ragged: Vec<Vec<Option<Op>>> = vec![vec![None; 6], vec![None; 4]];
    assert_eq!(
        check_shapes(&ragged, 2, 2, 2).unwrap_err().message(),
        "dimension mismatch: cartops row 1 has 4 entries, expected 6"
    );
    assert_eq!(
        check_shapes(&ops, 2, 2, 1).unwrap_err().message(),
        "dimension mismatch: 1 amplitudes for 2 control pairs"
    );
}

#[test]
fn the_cost_has_a_default() {
    let _c: GrapeXyCost = GrapeXyCost::default();
}
