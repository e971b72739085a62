use qoala::error::QoalaError;
use qoala::objfun::{single_spin_dim, Controls, FidelityKind};
use qoala::rodrigues::{elements_per_point, rodrigues_hessian_unavailable};
use qoala::penalty::penalties_active;
use qoala::types::{Basis, Penalty, StateSpace};

#[test]
fn errors_render_their_kind() {
    assert_eq!(QoalaError::BadValue("x".into()).message(), "invalid configuration: x");
    assert_eq!(QoalaError::Io("disk".into()).message(), "io error: disk");
    assert_eq!(QoalaError::MissingField("basis".into()).message(), "missing configuration: basis");
}

#[test]
fn stored_elements_per_point() {
    assert_eq!(elements_per_point(StateSpace::Liouville, Basis::Sphten).unwrap(), 9);
    assert_eq!(elements_per_point(StateSpace::Liouville, Basis::Zeeman).unwrap(), 16);
    assert_eq!(elements_per_point(StateSpace::Hilbert, Basis::Zeeman).unwrap(), 4);
    assert!(elements_per_point(StateSpace::Hilbert, Basis::Sphten).is_err());
    assert!(matches!(rodrigues_hessian_unavailable(), QoalaError::NotImplemented(_)));
}

#[test]
fn the_block_size_is_read_off_the_table() {
    assert_eq!(single_spin_dim(&[(0, 0), (3, 1), (2, 3)]).unwrap(), 4);
    assert_eq!(single_spin_dim(&[(1, 0)]).unwrap(), 2);
    assert!(single_spin_dim(&[]).is_err());
}

#[test]
fn only_state_fidelities_are_normalised() {
    assert!(FidelityKind::State.normalise_for_adaptivity());
    assert!(!FidelityKind::Gate.normalise_for_adaptivity());
}

#[test]
fn controls_hand_out_the_form_asked_for() {
    let composite = vec![1u8, 2, 3];
    let c: Controls<u8> = Controls::Composite(&composite);
    assert_eq!(c.composite().unwrap(), &[1, 2, 3]);
    assert_eq!(
        c.pauli().unwrap_err().message(),
        "invalid configuration: this objective function needs single-spin Cartesian operators"
    );
    let pauli = vec![vec![Some(1u8), None, None]];
    let p: Controls<u8> = Controls::Pauli(&pauli);
    assert_eq!(p.pauli().unwrap().len(), 1);
    assert!(p.composite().is_err());
}

#[test]
fn only_a_lone_no_penalty_penalises_nothing() {
    assert!(!penalties_active(&[Penalty::NoPenalty]));
    assert!(penalties_active(&[Penalty::Ns]));
    assert!(penalties_active(&[Penalty::NoPenalty, Penalty::Dns]));
    assert!(penalties_active(&[]));
}
