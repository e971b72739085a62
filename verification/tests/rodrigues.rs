use qoala::error::QoalaError;
use qoala::rodrigues::rotation_layout;
use qoala::types::{Basis, StateSpace};

fn ops(rows: usize, cols: usize) -> Vec<Vec<Option<u8>>> {
    vec![vec![None; cols]; rows]
}

#[test]
fn rotation_layout_counts_pairs_and_points() {
    let r = rotation_layout(StateSpace::Liouville, Basis::Sphten, 8, 3, 8, &ops(2, 6)).unwrap();
    assert_eq!(r, (2, 4, 4));
}

#[test]
fn rotation_layout_refuses_bad_shapes() {
    let e = rotation_layout(StateSpace::Liouville, Basis::Sphten, 7, 3, 8, &ops(2, 6)).unwrap_err();
    assert_eq!(e.message(), "dimension mismatch: rot_axis must be 8x3, got 7x3");
    let e = rotation_layout(StateSpace::Hilbert, Basis::Sphten, 8, 3, 8, &ops(2, 6)).unwrap_err();
    assert!(matches!(e, QoalaError::NotImplemented(_)));
    let e = rotation_layout(StateSpace::Liouville, Basis::Sphten, 8, 3, 8, &ops(0, 6)).unwrap_err();
    assert_eq!(e.message(), "invalid configuration: no control operators supplied");
    let e = rotation_layout(StateSpace::Liouville, Basis::Sphten, 8, 3, 8, &ops(2, 5)).unwrap_err();
    assert!(matches!(e, QoalaError::Dimension(_)));
    let e = rotation_layout(StateSpace::Liouville, Basis::Sphten, 9, 3, 9, &ops(2, 6)).unwrap_err();
    assert_eq!(e.message(), "dimension mismatch: time-point count 9 is not a multiple of the spin count 2");
}
