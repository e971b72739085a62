use qoala::optim::newton::ReportLayout;
use qoala::optim::progress::NoProgress;
use qoala::optim::{check_parameter_count, Counters, ObjectiveRequest};

#[test]
fn rules_are_as_wide_as_the_header() {
    for adaptive in [false, true] {
        for check in [false, true] {
            for penalties in [false, true] {
                let l = ReportLayout { check, penalties, adaptive };
                assert_eq!(l.rule('-').chars().count(), l.columns().chars().count());
                assert!(l.rule('=').chars().all(|c| c == '='));
            }
        }
    }
}

#[test]
fn the_plain_table_is_sixty_two_wide() {
    let l = ReportLayout { check: false, penalties: false, adaptive: false };
    assert_eq!(l.rule('-').len(), 62);
    assert_eq!(l.columns(), "Iter  #f   #g   #H   #R    fidelity      alpha      |grad|    ");
    let full = ReportLayout { check: true, penalties: true, adaptive: true };
    assert_eq!(full.rule('-').len(), 112);
}

#[test]
fn counters_start_at_zero() {
    let c = Counters::default();
    assert_eq!((c.iter, c.fx, c.gfx, c.hfx, c.rfo), (0, 0, 0, 0, 0));
    let _ = NoProgress;
}

#[test]
fn each_evaluation_is_counted_to_its_order() {
    let mut c = Counters::default();
    c.record_evaluation(ObjectiveRequest::Value);
    c.record_evaluation(ObjectiveRequest::Gradient);
    c.record_evaluation(ObjectiveRequest::Hessian);
    assert_eq!((c.fx, c.gfx, c.hfx, c.iter, c.rfo), (3, 2, 1, 0, 0));
    c.record_adaptive_evaluations(4);
    assert_eq!((c.fx, c.gfx, c.hfx), (7, 2, 1));
}

#[test]
fn a_parameter_vector_must_fill_the_waveform() {
    assert!(check_parameter_count(12, 6, 2).is_ok());
    assert_eq!(
        check_parameter_count(11, 6, 2).unwrap_err().message(),
        "dimension mismatch: parameter vector has 11 entries but the waveform is 6x2"
    );
}

#[test]
fn counter_cells_are_padded_columns() {
    let mut c = Counters::default();
    c.iter = 3;
    c.fx = 12;
    let plain = ReportLayout { check: false, penalties: false, adaptive: false };
    assert_eq!(plain.counter_cells(&c, 2, 4), "3     12   0    0    0    ");
    let adaptive = ReportLayout { check: false, penalties: false, adaptive: true };
    assert_eq!(adaptive.counter_cells(&c, 2, 4), "3     12   0    0    0    2    4    ");
}
