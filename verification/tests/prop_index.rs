use qoala::objfun::single_spin_dim;
use qoala::prop_index::propagator_ind;
use qoala::rodrigues::elements_per_point;
use qoala::types::{Basis, StateSpace};

#[test]
fn single_spin_sphten_table_has_the_unit_state_first() {
    let t = propagator_ind(StateSpace::Liouville, Basis::Sphten, 1).unwrap();
    assert_eq!(t.len(), 1);
    assert_eq!(t[0].len(), 10);
    assert_eq!(t[0][0], (0, 0));
    // The remaining nine entries fill rows/cols 1..3 column-major.
    let expected = [
        (1, 1),
        (2, 1),
        (3, 1),
        (1, 2),
        (2, 2),
        (3, 2),
        (1, 3),
        (2, 3),
        (3, 3),
    ];
    assert_eq!(&t[0][1..], &expected[..]);
}

#[test]
fn single_spin_zeeman_tables_are_column_major_fills() {
    let t = propagator_ind(StateSpace::Liouville, Basis::Zeeman, 1).unwrap();
    assert_eq!(t[0].len(), 16);
    for (k, &(r, c)) in t[0].iter().enumerate() {
        assert_eq!(r, k % 4);
        assert_eq!(c, k / 4);
    }
    let h = propagator_ind(StateSpace::Hilbert, Basis::Zeeman, 1).unwrap();
    assert_eq!(h[0].len(), 4);
    for (k, &(r, c)) in h[0].iter().enumerate() {
        assert_eq!(r, k % 2);
        assert_eq!(c, k / 2);
    }
}

#[test]
fn multi_spin_sphten_tables_stay_inside_the_composite_space() {
    for nspins in 1..=4 {
        let t = propagator_ind(StateSpace::Liouville, Basis::Sphten, nspins).unwrap();
        assert_eq!(t.len(), nspins);
        let dim = 4usize.pow(nspins as u32);
        for table in &t {
            for &(r, c) in table {
                assert!(r < dim, "row {r} outside dim {dim}");
                assert!(c < dim, "col {c} outside dim {dim}");
            }
        }
    }
}

#[test]
fn unsupported_combinations_are_rejected() {
    assert!(propagator_ind(StateSpace::Hilbert, Basis::Sphten, 1).is_err());
    assert!(propagator_ind(StateSpace::Liouville, Basis::Zeeman, 5).is_err());
    assert!(propagator_ind(StateSpace::Hilbert, Basis::Zeeman, 3).is_err());
}

#[test]
fn the_rejections_say_why() {
    let e = propagator_ind(StateSpace::Liouville, Basis::Zeeman, 5).unwrap_err();
    assert_eq!(e.message(), "not implemented: zeeman-liouville propagator indices for 5 spins");
    let e = propagator_ind(StateSpace::Hilbert, Basis::Zeeman, 3).unwrap_err();
    assert_eq!(e.message(), "not implemented: zeeman-hilbert propagator indices for 3 spins");
    let e = propagator_ind(StateSpace::Liouville, Basis::Sphten, 0).unwrap_err();
    assert_eq!(e.message(), "invalid configuration: need at least one spin");
}

#[test]
fn multi_spin_zeeman_tables_stay_inside_the_composite_space() {
    for nspins in 1..=4 {
        let t = propagator_ind(StateSpace::Liouville, Basis::Zeeman, nspins).unwrap();
        assert_eq!(t.len(), nspins);
        let dim = 4usize.pow(nspins as u32);
        for table in &t {
            for &(r, c) in table {
                assert!(r < dim && c < dim);
            }
        }
    }
    for nspins in 1..=2 {
        let t = propagator_ind(StateSpace::Hilbert, Basis::Zeeman, nspins).unwrap();
        let dim = 2usize.pow(nspins as u32);
        for table in &t {
            for &(r, c) in table {
                assert!(r < dim && c < dim);
            }
        }
    }
}

#[test]
fn two_spin_zeeman_tables_place_the_block_on_each_spin() {
    let t = propagator_ind(StateSpace::Liouville, Basis::Zeeman, 2).unwrap();
    assert_eq!(t[0].len(), 64);
    // Entry 17: d0 = 1, d1 = 0, d2 = 1.
    assert_eq!(t[0][17], (4 * 1 + 1, 4 * 0 + 1));
    assert_eq!(t[1][17], (1 + 4 * 1, 0 + 4 * 1));
}

#[test]
fn the_single_spin_tables_span_the_single_spin_block() {
    let cases = [
        (StateSpace::Liouville, Basis::Sphten, 4, 1),
        (StateSpace::Liouville, Basis::Zeeman, 4, 0),
        (StateSpace::Hilbert, Basis::Zeeman, 2, 0),
    ];
    for (space, basis, dim, unit) in cases {
        let t = propagator_ind(space, basis, 1).unwrap();
        assert_eq!(single_spin_dim(&t[0]).unwrap(), dim);
        assert_eq!(t[0].len(), elements_per_point(space, basis).unwrap() + unit);
    }
}
