use qoala::gui::app::slug;
use qoala::gui::escalade::Direction;
use qoala::gui::platform::{decode, detect, encode, fragment_for_json, setup_json_from_fragment};
use qoala::gui::problem::Algorithm;
use qoala::gui::setup::{pair_count, pair_index, Component, PenaltyChoice, ProductOperator};
use qoala::types::Penalty;

const SETUP_JSON: &str = r#"{"name":"Two-spin z to z","nspins":2,"offsets_hz":[-100.0,100.0],"penalty":"None","seed":null}"#;

/// A setup's JSON text survives the fragment: the fragment carries no
/// `#`, and reading it back, with or without the leading marker a browser
/// hands back, gives the same text.
#[test]
fn a_setup_survives_the_url_fragment() {
    for json in [SETUP_JSON, "{}", "{\"name\":\"Größe & Gewicht #1\"}"] {
        let fragment = fragment_for_json(json);
        assert!(!fragment.contains('#'));
        let back = setup_json_from_fragment(&fragment).expect("decode");
        assert_eq!(back, json);
        let back = setup_json_from_fragment(&format!("#{fragment}")).expect("decode");
        assert_eq!(back, json);
    }
}

/// Fragments that carry no setup, or one whose escapes cannot be read,
/// give nothing; one that decodes to text that is not JSON gives that text,
/// which the JSON reader then refuses.
#[test]
fn junk_fragments_are_ignored_rather_than_panicking() {
    assert!(setup_json_from_fragment("").is_none());
    assert!(setup_json_from_fragment("#other=1").is_none());
    assert_eq!(setup_json_from_fragment("setup=not%20json").as_deref(), Some("not json"));
    assert!(setup_json_from_fragment("setup=%").is_none());
    assert!(setup_json_from_fragment("setup=%ZZ").is_none());
}

#[test]
fn encoding_escapes_everything_but_unreserved_bytes() {
    assert_eq!(encode("a-Z_0.~"), "a-Z_0.~");
    assert_eq!(encode("a b"), "a%20b");
    assert_eq!(encode("#&="), "%23%26%3D");
    assert_eq!(encode("é"), "%C3%A9");
    assert_eq!(encode(""), "");
}

#[test]
fn decoding_reads_either_case_and_refuses_what_it_cannot_read() {
    assert_eq!(decode("%c3%A9").as_deref(), Some("é"));
    assert_eq!(decode("a%20b").as_deref(), Some("a b"));
    assert_eq!(decode("%+A").as_deref(), Some("\n"));
    assert!(decode("%4").is_none());
    assert!(decode("%G0").is_none());
    assert!(decode("%FF").is_none());
    assert_eq!(decode("plain").as_deref(), Some("plain"));
}

#[test]
fn the_first_setup_part_wins() {
    assert_eq!(setup_json_from_fragment("a=1&setup=x&setup=y").as_deref(), Some("x"));
    assert_eq!(setup_json_from_fragment("##setup=%7B%7D").as_deref(), Some("{}"));
    assert!(setup_json_from_fragment("setupx=1").is_none());
    assert!(setup_json_from_fragment("a=1&setup=%ZZ&setup=y").is_none());
}

#[test]
fn encode_then_decode_is_the_identity() {
    for s in ["", "abc", "a b&c#d", "ünïcødé ✓", "%%%", "100%"] {
        assert_eq!(decode(&encode(s)).as_deref(), Some(s));
    }
}

#[test]
fn a_native_build_is_not_a_browser() {
    let p = detect();
    assert!(!p.is_web);
    assert!(!p.cross_origin_isolated);
}

#[test]
fn slugs_are_lower_case_and_trimmed() {
    assert_eq!(slug("Two-spin Z to Z"), "two_spin_z_to_z");
    assert_eq!(slug("__Hello, World!__"), "hello__world");
    assert_eq!(slug("CNOT (3 spins)"), "cnot__3_spins");
    assert_eq!(slug("___"), "");
    assert_eq!(slug(""), "");
    assert_eq!(slug("Größe"), "gr__e");
}

#[test]
fn labels_name_each_spin_and_component() {
    assert_eq!(ProductOperator::single(0, Component::Z).label(), "I1z");
    let two = ProductOperator { terms: vec![(1, Component::Z), (0, Component::X)] };
    assert_eq!(two.label(), "2 I1x I2z");
    let three = ProductOperator {
        terms: vec![(2, Component::Y), (0, Component::Z), (1, Component::Z)],
    };
    assert_eq!(three.label(), "4 I1z I2z I3y");
    assert_eq!(ProductOperator { terms: vec![] }.label(), "unit");
    let tie = ProductOperator { terms: vec![(9, Component::Y), (0, Component::X), (9, Component::X)] };
    assert_eq!(tie.label(), "4 I1x I10y I10x");
}

#[test]
fn pairs_are_laid_out_row_by_row() {
    let mut expected = 0;
    for i in 0..4 {
        for j in i + 1..4 {
            assert_eq!(pair_index(4, i, j), expected);
            assert_eq!(pair_index(4, j, i), expected);
            expected += 1;
        }
    }
    assert_eq!(expected, pair_count(4));
    // Beyond the register the layout just carries on along the row.
    assert_eq!(pair_index(3, 0, 5), 4);
    assert_eq!(pair_count(0), 0);
    assert_eq!(pair_count(1), 0);
    assert_eq!(pair_count(2), 1);
    assert_eq!(pair_count(5), 10);
}

#[test]
fn menus_have_their_labels() {
    assert_eq!(Component::X.name(), "x");
    assert_eq!(Direction::MinusY.name(), "-y");
    assert_eq!(Direction::PlusZ.name(), "+z");
    assert_eq!(Algorithm::Qoala.name(), "QOALA");
    assert_eq!(Algorithm::Escalade.name(), "ESCALADE");
    assert_eq!(
        Algorithm::Escalade.blurb(),
        "single spins across a band: broadband and B1-robust pulses"
    );
    assert_eq!(PenaltyChoice::Snsa.name(), "SNSA - polar spillout");
    assert_eq!(PenaltyChoice::NoPenalty.name(), "none");
    assert_eq!(PenaltyChoice::Dns.penalty(), Penalty::Dns);
    assert_eq!(PenaltyChoice::NoPenalty.penalty(), Penalty::NoPenalty);
}

use qoala::gui::setup::{setup_problems, OperatorFacts, SetupFacts, SetupProblem, TargetFacts};

fn good_setup() -> SetupFacts {
    SetupFacts {
        nspins: 2,
        npairs: 1,
        spin_control: vec![vec![true], vec![true]],
        positive_duration: true,
        nslices: 10,
        positive_amplitudes: true,
        any_coupling: true,
        target: TargetFacts::Transfer {
            same: false,
            from: OperatorFacts::Product { spins: vec![0] },
            to: OperatorFacts::Product { spins: vec![1] },
        },
    }
}

#[test]
fn a_sound_setup_has_no_problems() {
    assert!(setup_problems(&good_setup()).is_empty());
}

#[test]
fn problems_come_in_the_order_they_are_checked() {
    let mut f = good_setup();
    f.nspins = 1;
    f.npairs = 2;
    f.spin_control = vec![vec![true, false]];
    f.nslices = 0;
    f.any_coupling = false;
    f.target = TargetFacts::Transfer {
        same: true,
        from: OperatorFacts::Product { spins: vec![] },
        to: OperatorFacts::Basis { indices: vec![3, 16] },
    };
    assert_eq!(
        setup_problems(&f),
        vec![
            SetupProblem::SpinCount,
            SetupProblem::PairDrivesNoSpin(1),
            SetupProblem::NoSlices,
            SetupProblem::NoCoupling,
            SetupProblem::SameOperators,
            SetupProblem::EmptyProduct,
            SetupProblem::BasisOutside,
        ]
    );
}

#[test]
fn gate_targets_are_checked_once() {
    let mut f = good_setup();
    f.spin_control = vec![vec![false], vec![true]];
    f.target = TargetFacts::Gate { wanted: 2, qubits: vec![1, 1] };
    assert_eq!(
        setup_problems(&f),
        vec![SetupProblem::SpinHasNoControl(0), SetupProblem::GateSameQubits]
    );
    f.target = TargetFacts::Gate { wanted: 2, qubits: vec![0, 5] };
    assert_eq!(setup_problems(&f)[1], SetupProblem::GateQubitOutside);
    f.target = TargetFacts::Gate { wanted: 1, qubits: vec![0, 5] };
    assert_eq!(setup_problems(&f)[1], SetupProblem::GateQubitCount);
}

use qoala::gui::setup::{clamp_qubits, resize_fields, resize_grid, resize_keeping};

#[test]
fn the_grid_follows_the_register() {
    let mut grid = vec![vec![true, false, true], vec![false, true, true]];
    resize_grid(&mut grid, 3, 2);
    assert_eq!(grid, vec![vec![true, false], vec![false, true], vec![false, false]]);
    resize_grid(&mut grid, 1, 4);
    assert_eq!(grid, vec![vec![true, false, false, false]]);
}

#[test]
fn operators_stay_inside_the_register() {
    let mut op = ProductOperator { terms: vec![(0, Component::X), (3, Component::Y), (1, Component::Z)] };
    op.keep_inside(2);
    assert_eq!(op.terms, vec![(0, Component::X), (1, Component::Z)]);
    let mut lost = ProductOperator { terms: vec![(3, Component::Y)] };
    lost.keep_inside(2);
    assert_eq!(lost.terms, vec![(0, Component::Z)]);
}

#[test]
fn gate_qubits_are_resized_and_clamped() {
    let mut q = vec![3, 0];
    clamp_qubits(&mut q, 2, 2);
    assert_eq!(q, vec![0, 0]);
    let mut q = vec![5];
    clamp_qubits(&mut q, 2, 3);
    assert_eq!(q, vec![0, 0]);
    let mut q = vec![1, 4, 7];
    clamp_qubits(&mut q, 2, 3);
    assert_eq!(q, vec![1, 1]);
}

#[test]
fn channels_are_named_per_pair() {
    let names = qoala::gui::setup::channel_names(2);
    assert_eq!(names, vec!["x-control 1", "y-control 1", "x-control 2", "y-control 2"]);
    assert!(qoala::gui::setup::channel_names(0).is_empty());
}

#[test]
fn resizing_keeps_what_fits() {
    let mut v = vec![1.5f64, 2.5];
    resize_keeping(&mut v, 4, 0.0);
    assert_eq!(v, vec![1.5, 2.5, 0.0, 0.0]);
    resize_keeping(&mut v, 1, 0.0);
    assert_eq!(v, vec![1.5]);
}

#[test]
fn resizing_the_setup_fields_follows_the_counts() {
    let mut offsets = vec![100.0f64, -50.0];
    let mut couplings = vec![7.0f64];
    let mut amplitudes = vec![500.0f64];
    resize_fields(&mut offsets, &mut couplings, &mut amplitudes, 3, 2, 0.0, 0.0, 1000.0);
    assert_eq!(offsets, vec![100.0, -50.0, 0.0]);
    assert_eq!(couplings, vec![7.0, 0.0, 0.0]);
    assert_eq!(amplitudes, vec![500.0, 1000.0]);
}

#[test]
fn the_menus_list_every_choice_once() {
    assert_eq!(Direction::ALL.len(), 6);
    assert_eq!(Component::ALL, [Component::X, Component::Y, Component::Z]);
    assert_eq!(Algorithm::ALL, [Algorithm::Qoala, Algorithm::Escalade]);
    assert_eq!(PenaltyChoice::MENU[0], PenaltyChoice::NoPenalty);
    assert_eq!(PenaltyChoice::MENU.len(), 6);
}

#[test]
fn labels_ignore_the_order_of_terms() {
    let a = ProductOperator { terms: vec![(1, Component::Z), (0, Component::Z)] };
    let b = ProductOperator { terms: vec![(0, Component::Z), (1, Component::Z)] };
    assert_eq!(a.label(), "2 I1z I2z");
    assert_eq!(a.label(), b.label());
}

#[test]
fn slugs_are_short_and_settled() {
    let s = slug("  Two-spin SWAP (fast)  ");
    assert!(s.chars().count() <= "  Two-spin SWAP (fast)  ".chars().count());
    assert_eq!(slug(&s), s);
}

#[test]
fn encodings_use_the_unreserved_alphabet() {
    let e = encode("a b=c&d#é~");
    assert!(e.chars().all(|c| c.is_ascii_alphanumeric() || "-_.~%".contains(c)));
    assert_eq!(e, "a%20b%3Dc%26d%23%C3%A9~");
}

#[test]
fn every_pair_index_is_used_once() {
    let n = 5;
    let mut seen = vec![false; pair_count(n)];
    for i in 0..n {
        for j in (i + 1)..n {
            let k = pair_index(n, i, j);
            assert!(!seen[k]);
            seen[k] = true;
        }
    }
    assert!(seen.iter().all(|b| *b));
}

#[test]
fn setup_problems_read_as_before() {
    assert_eq!(SetupProblem::SpinCount.message("", 0), "between 2 and 4 spins, please");
    assert_eq!(SetupProblem::PairDrivesNoSpin(1).message("", 0), "control pair 2 drives no spin");
    assert_eq!(SetupProblem::SpinHasNoControl(0).message("", 0), "spin 1 has no control");
    assert_eq!(SetupProblem::GateQubitCount.message("CNOT", 2), "CNOT acts on 2 qubit(s)");
    assert_eq!(
        SetupProblem::GateQubitOutside.message("CNOT", 2),
        ["the", "gate names a qubit that does not exist"].join(" ")
    );
}
