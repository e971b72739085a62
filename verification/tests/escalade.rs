use qoala::escalade::objective::{pieces, ACCUMULATOR_BUDGET, MAX_PIECES};
use qoala::escalade::settings::{check_pulse_settings, resolve_spin_count, StartShape};
use qoala::escalade::solve::{rank, serves};
use qoala::optim::ObjectiveRequest;
use qoala::optim::ObjectiveRequest::{Gradient, Hessian, Value};

/// Long pulses are cut into fewer pieces, keeping their accumulators
/// within budget; short ones, and anything without a Hessian, get them all.
#[test]
fn the_piece_count_keeps_to_the_memory_budget() {
    assert_eq!(pieces(50, Hessian), MAX_PIECES);
    assert_eq!(pieces(1000, Hessian), 8);
    assert_eq!(pieces(361, Hessian), MAX_PIECES);
    assert_eq!(pieces(362, Hessian), MAX_PIECES - 1);
    assert_eq!(pieces(2047, Hessian), 2);
    assert_eq!(pieces(2048, Hessian), 1);
    assert_eq!(pieces(5000, Hessian), 1);
    assert_eq!(pieces(usize::MAX, Hessian), 1);
    assert_eq!(pieces(usize::MAX, Gradient), 1);
    for n in [1, 50, 5000] {
        assert_eq!(pieces(n, Value), MAX_PIECES);
        assert_eq!(pieces(n, Gradient), MAX_PIECES);
    }
    for n in [100, 361, 362, 500, 700, 1000, 2047, 2048] {
        let p = pieces(n, Hessian);
        let bytes = 8 * (1 + 2 * n + 4 * n * n);
        assert!(
            p == 1 || p * bytes <= ACCUMULATOR_BUDGET,
            "{n} points, {p} pieces"
        );
    }
}

#[test]
fn the_budget_is_a_quarter_gibibyte() {
    assert_eq!(ACCUMULATOR_BUDGET, 256 << 20);
}

#[test]
fn piece_counts_never_rise_with_the_pulse_length() {
    let mut last = MAX_PIECES;
    for n in 0..3000 {
        let p = pieces(n, ObjectiveRequest::Hessian);
        assert!(p <= last, "{n} points");
        assert!((1..=MAX_PIECES).contains(&p));
        last = p;
    }
}

#[test]
fn a_gradient_of_half_a_million_entries_still_gets_every_piece() {
    assert_eq!(pieces(262_143, ObjectiveRequest::Gradient), MAX_PIECES);
    assert_eq!(pieces(262_144, ObjectiveRequest::Gradient), MAX_PIECES - 1);
}

#[test]
fn orders_rank_value_gradient_hessian() {
    assert_eq!(rank(ObjectiveRequest::Value), 0);
    assert_eq!(rank(ObjectiveRequest::Gradient), 1);
    assert_eq!(rank(ObjectiveRequest::Hessian), 2);
}

#[test]
fn explicit_counts_set_the_spin_count_and_must_agree() {
    assert_eq!(resolve_spin_count(None, None, Some(3), 1).unwrap(), 3);
    assert_eq!(resolve_spin_count(None, None, None, 5).unwrap(), 5);
    assert_eq!(resolve_spin_count(Some(2), Some(2), Some(2), 7).unwrap(), 2);
    assert_eq!(
        resolve_spin_count(None, Some(3), Some(2), 1).unwrap_err().message(),
        "invalid configuration: offsets give 2 spins but target states give 3"
    );
    assert_eq!(
        resolve_spin_count(Some(4), Some(1), None, 1).unwrap_err().message(),
        "invalid configuration: target states give 1 spins but initial states give 4"
    );
    assert_eq!(
        resolve_spin_count(None, None, None, 0).unwrap_err().message(),
        "invalid configuration: at least one spin is needed"
    );
    assert!(resolve_spin_count(None, None, Some(0), 3).is_err());
}

#[test]
fn a_held_evaluation_serves_no_higher_order_at_its_point() {
    assert!(serves(true, Hessian, Value));
    assert!(serves(true, Gradient, Gradient));
    assert!(!serves(true, Gradient, Hessian));
    assert!(!serves(false, Hessian, Value));
}

#[test]
fn pulse_settings_are_checked_in_order() {
    let start = Some(StartShape { rows: 40, cols: 2, finite: true });
    assert_eq!(check_pulse_settings(3, true, None, true, start, 0).unwrap(), 40);
    assert_eq!(check_pulse_settings(3, true, Some(3), true, None, 25).unwrap(), 25);
    let e = check_pulse_settings(0, true, None, true, start, 0).unwrap_err();
    assert_eq!(e.message(), "missing configuration: at least one radio-frequency amplitude");
    let e = check_pulse_settings(3, false, None, true, start, 0).unwrap_err();
    assert_eq!(e.message(), "invalid configuration: radio-frequency amplitudes must be finite");
    let e = check_pulse_settings(3, true, Some(2), true, start, 0).unwrap_err();
    assert_eq!(e.message(), "invalid configuration: 2 weights for 3 radio-frequency amplitudes");
    let e = check_pulse_settings(3, true, Some(3), false, start, 0).unwrap_err();
    assert_eq!(e.message(), "invalid configuration: radio-frequency weights must have a non-zero sum");
    let bad = Some(StartShape { rows: 40, cols: 3, finite: true });
    let e = check_pulse_settings(3, true, None, true, bad, 0).unwrap_err();
    assert_eq!(e.message(), "invalid configuration: the starting pulse must be np x 2, got 40x3");
    let nan = Some(StartShape { rows: 40, cols: 2, finite: false });
    let e = check_pulse_settings(3, true, None, true, nan, 0).unwrap_err();
    assert_eq!(e.message(), "invalid configuration: the starting pulse must be finite");
    let e = check_pulse_settings(3, true, None, true, None, 0).unwrap_err();
    assert_eq!(e.message(), "invalid configuration: the pulse needs at least one point");
}
