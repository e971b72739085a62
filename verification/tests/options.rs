use qoala::config::SpinNote;
use qoala::error::QoalaError;
use qoala::options::{
    check_control_layout, check_operator_shapes, check_options, check_power_shape, BandwidthSource,
    CtrlType, Fidelity, GridNote, OptMethod, OptionFacts, PauliPlan, PowerShape, PropCache, PropMethod,
    SpinControl, WeightRule,
};
use qoala::types::{Basis, Penalty, StateSpace};

fn valid() -> OptionFacts {
    OptionFacts {
        basis: Some(Basis::Sphten),
        space: None,
        nspins: Some(2),
        mults: None,
        objective_given: true,
        prop_targ_given: false,
        rho_init: Some(1),
        rho_targ: Some(1),
        fidelity: None,
        operators: Some(vec![(16, 16), (16, 16)]),
        pwr_levels: Some(PowerShape::Uniform(true)),
        pulse_dt: None,
        pulse_dur: Some(true),
        pulse_nsteps: Some(50),
        penalties: None,
        p_weights: None,
        bandwidth_given: false,
        offsets: None,
        drift_count: 1,
        prop_cache: None,
        step_method: None,
        auxmat_method: None,
        method: None,
        max_iter: None,
        n_grads: None,
        reg_max_iter: None,
    }
}

fn message(f: OptionFacts) -> String {
    match check_options(f) {
        Err(e) => e.message(),
        Ok(_) => panic!("expected an error"),
    }
}

#[test]
fn valid_options_get_the_defaults() {
    let p = check_options(valid()).unwrap();
    assert_eq!(p.space, StateSpace::Liouville);
    assert!(!p.space_overridden);
    assert_eq!(p.nspins, 2);
    assert_eq!(p.mults, vec![2, 2]);
    assert_eq!(p.spin_note, SpinNote::AssumedTwoLevel);
    assert_eq!(p.ctrl_type, CtrlType::PointToPoint);
    assert_eq!(p.fidelity, Fidelity::Real);
    assert_eq!((p.kctrls, p.dim, p.nsteps), (2, 16, 50));
    assert!(!p.grid_given);
    assert_eq!(p.penalties, vec![Penalty::NoPenalty]);
    assert_eq!(p.weights, WeightRule::SliceCount);
    assert_eq!(p.bandwidth, BandwidthSource::Absent);
    assert_eq!(p.ensemble, 1);
    assert_eq!(p.prop_cache, PropCache::Carry);
    assert_eq!(p.step_method, PropMethod::Krylov);
    assert_eq!(p.auxmat_method, PropMethod::Taylor);
    assert_eq!(p.method, OptMethod::Lbfgs);
    assert_eq!((p.max_iter, p.n_grads, p.reg_max_iter), (100, 20, 2500));
    assert!(!p.n_grads_dropped);
}

#[test]
fn given_penalties_are_weighted_by_the_slice_count() {
    let mut f = valid();
    f.penalties = Some(vec![Penalty::Ns, Penalty::Dns]);
    assert_eq!(check_options(f).unwrap().weights, WeightRule::SliceCount);
    let mut f = valid();
    f.penalties = Some(vec![Penalty::Ns]);
    f.p_weights = Some(1);
    assert_eq!(check_options(f).unwrap().weights, WeightRule::Given);
}

#[test]
fn a_grid_wins_over_duration_and_steps() {
    let mut f = valid();
    f.pulse_dt = Some((7, true));
    let p = check_options(f).unwrap();
    assert_eq!((p.nsteps, p.grid_given, p.grid_note), (7, true, GridNote::DurAndSteps));
}

#[test]
fn other_methods_drop_the_history() {
    let mut f = valid();
    f.method = Some(OptMethod::NewtonRaphson);
    f.n_grads = Some(5);
    let p = check_options(f).unwrap();
    assert_eq!((p.n_grads, p.n_grads_dropped), (0, true));
}

#[test]
fn missing_fields_are_reported_in_order() {
    let mut f = valid();
    f.basis = None;
    f.objective_given = false;
    assert_eq!(message(f), "missing configuration: basis");
    let mut f = valid();
    f.basis = Some(Basis::Zeeman);
    assert_eq!(message(f), "missing configuration: space");
    let mut f = valid();
    f.nspins = None;
    assert_eq!(message(f), "missing configuration: either nspins or mults must be provided");
    let mut f = valid();
    f.objective_given = false;
    f.operators = None;
    assert_eq!(message(f), "missing configuration: optimcon_fun");
    let mut f = valid();
    f.rho_targ = None;
    assert_eq!(message(f), "missing configuration: targets must be supplied in rho_targ or prop_targ");
    let mut f = valid();
    f.operators = None;
    assert_eq!(message(f), "missing configuration: operators");
    let mut f = valid();
    f.pwr_levels = None;
    assert_eq!(message(f), "missing configuration: pwr_levels");
    let mut f = valid();
    f.pulse_dur = None;
    assert_eq!(message(f), "missing configuration: pulse_dur or pulse_dt");
    let mut f = valid();
    f.pulse_nsteps = None;
    assert_eq!(message(f), "missing configuration: pulse_nsteps or pulse_dt");
    let mut f = valid();
    f.drift_count = 0;
    assert_eq!(
        message(f),
        "missing configuration: information on the drift terms must be supplied in drift_sys"
    );
}

#[test]
fn refused_values() {
    let mut f = valid();
    f.rho_targ = Some(2);
    assert_eq!(
        message(f),
        "invalid configuration: rho_targ must have the same number of states as rho_init"
    );
    let mut f = valid();
    f.fidelity = Some(Fidelity::Square);
    assert!(matches!(check_options(f), Err(QoalaError::NotImplemented(_))));
    let mut f = valid();
    f.operators = Some(vec![]);
    assert_eq!(message(f), "invalid configuration: no control operators supplied");
    let mut f = valid();
    f.pulse_dur = Some(false);
    assert_eq!(message(f), "invalid configuration: pulse_dur must be positive");
    let mut f = valid();
    f.pulse_nsteps = Some(0);
    assert_eq!(message(f), "invalid configuration: pulse_nsteps must be positive");
    let mut f = valid();
    f.pulse_dt = Some((3, false));
    assert_eq!(message(f), "invalid configuration: pulse_dt must be positive real numbers");
    let mut f = valid();
    f.penalties = Some(vec![Penalty::Ns, Penalty::Dns]);
    f.p_weights = Some(1);
    assert_eq!(message(f), "invalid configuration: p_weights must have one entry per penalty");
}

#[test]
fn the_adiabatic_penalty_needs_a_bandwidth() {
    let mut f = valid();
    f.penalties = Some(vec![Penalty::Adiab]);
    assert_eq!(
        message(f),
        "missing configuration: a pulse bandwidth must be provided with the ADIAB penalty"
    );
    let mut f = valid();
    f.penalties = Some(vec![Penalty::Adiab]);
    f.offsets = Some(1);
    assert_eq!(check_options(f).unwrap().bandwidth, BandwidthSource::OffsetRange);
}

#[test]
fn operator_shapes_must_commute() {
    assert!(check_operator_shapes(&vec![(4, 4), (4, 4)]).is_ok());
    let e = check_operator_shapes(&vec![(4, 4), (2, 2)]).unwrap_err();
    assert_eq!(e.message(), "dimension mismatch: cannot multiply 4x4 by 2x2");
    let e = check_operator_shapes(&vec![(4, 3)]).unwrap_err();
    assert_eq!(e.message(), "dimension mismatch: cannot multiply 4x3 by 4x3");
}

#[test]
fn power_levels_must_match_the_channels() {
    assert!(check_power_shape(PowerShape::PerChannel(2), 2).is_ok());
    assert_eq!(
        check_power_shape(PowerShape::PerChannel(3), 2).unwrap_err().message(),
        "dimension mismatch: expected 2 power levels, got 3"
    );
    assert_eq!(
        check_power_shape(PowerShape::Uniform(false), 2).unwrap_err().message(),
        "invalid configuration: power levels must be positive"
    );
    assert_eq!(
        check_power_shape(PowerShape::Ensemble(1), 2).unwrap_err().message(),
        "dimension mismatch: a power level list is needed for each of the 2 channels"
    );
}

#[test]
fn the_control_layout_places_pair_operators() {
    let sc = SpinControl {
        cols: 4,
        rows: vec![vec![true, true, false, false], vec![false, false, true, true]],
    };
    match check_control_layout(true, StateSpace::Liouville, Basis::Sphten, 2, &vec![2, 2], Some(sc), false, false)
        .unwrap()
    {
        PauliPlan::PerPair(s) => assert_eq!(s, vec![vec![true, false], vec![false, true]]),
        _ => panic!("expected per-pair operators"),
    }
    let e = check_control_layout(true, StateSpace::Liouville, Basis::Sphten, 2, &vec![2, 2], None, false, false)
        .unwrap_err();
    assert!(matches!(e, QoalaError::MissingField(_)));
    let sc = SpinControl { cols: 2, rows: vec![vec![true, true]] };
    let e = check_control_layout(true, StateSpace::Liouville, Basis::Sphten, 1, &vec![3], Some(sc), false, false)
        .unwrap_err();
    assert_eq!(e.message(), "not implemented: single-spin operators for anything other than spin-1/2");
}
