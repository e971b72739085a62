use qoala::config::{
    current_split_slot, index_tables, ladder_index, multiplicity_counts, power_level_pattern,
    resolve_space, resolve_spins, resolve_splitting, split_slot, symmetry_flags,
    uncoupled_index_table, SpinNote, SplitNote, SplitOptions, TimeDependent,
};
use qoala::types::{Basis, StateSpace};

fn no_options() -> SplitOptions {
    SplitOptions {
        method_order: None,
        split_order: None,
        trotter_number: None,
        splitset: None,
        trotterset: None,
        adaptset: None,
    }
}

#[test]
fn power_level_permutations_match_the_kronecker_pattern() {
    let levels = vec![vec![1.0, 2.0], vec![10.0, 20.0, 30.0]];
    let lens: Vec<usize> = levels.iter().map(|v| v.len()).collect();
    let pattern = power_level_pattern(&lens, 2).unwrap();
    assert_eq!(pattern.len(), 6);
    assert!(pattern.iter().all(|row| row.len() == 2));
    for a in 0..pattern.len() {
        for b in a + 1..pattern.len() {
            assert_ne!(pattern[a], pattern[b]);
        }
    }
    let rows: Vec<(f64, f64)> = pattern
        .iter()
        .map(|row| (levels[0][row[0]], levels[1][row[1]]))
        .collect();
    assert_eq!(
        rows,
        vec![
            (1.0, 10.0),
            (1.0, 20.0),
            (1.0, 30.0),
            (2.0, 10.0),
            (2.0, 20.0),
            (2.0, 30.0)
        ]
    );
}

#[test]
fn a_power_level_list_is_needed_per_channel() {
    let e = power_level_pattern(&vec![2, 3], 3).unwrap_err();
    assert_eq!(
        e.message(),
        "dimension mismatch: a power level list is needed for each of the 3 channels"
    );
    assert_eq!(power_level_pattern(&vec![], 0).unwrap(), vec![Vec::<usize>::new()]);
    assert!(power_level_pattern(&vec![2, 0, 3], 3).unwrap().is_empty());
}

#[test]
fn spherical_tensors_run_in_liouville_space() {
    assert_eq!(
        resolve_space(Basis::Sphten, Some(StateSpace::Hilbert)).unwrap(),
        (StateSpace::Liouville, true)
    );
    assert_eq!(resolve_space(Basis::Sphten, None).unwrap(), (StateSpace::Liouville, false));
    assert_eq!(
        resolve_space(Basis::Zeeman, Some(StateSpace::Hilbert)).unwrap(),
        (StateSpace::Hilbert, false)
    );
    assert_eq!(
        resolve_space(Basis::Zeeman, None).unwrap_err().message(),
        "missing configuration: space"
    );
}

#[test]
fn mults_decide_the_spin_count() {
    assert_eq!(
        resolve_spins(Some(3), Some(vec![2, 3])).unwrap(),
        (2, vec![2, 3], SpinNote::CountFromMults)
    );
    assert_eq!(resolve_spins(Some(2), None).unwrap(), (2, vec![2, 2], SpinNote::AssumedTwoLevel));
    assert_eq!(resolve_spins(None, Some(vec![4])).unwrap(), (1, vec![4], SpinNote::Consistent));
    assert_eq!(
        resolve_spins(None, None).unwrap_err().message(),
        "missing configuration: either nspins or mults must be provided"
    );
}

#[test]
fn uncoupled_tables_are_block_diagonal() {
    let t = uncoupled_index_table(StateSpace::Liouville, Basis::Sphten, 2).unwrap();
    assert_eq!(t.len(), 18);
    assert_eq!(&t[..3], &[(0, 0), (1, 0), (2, 0)]);
    assert_eq!(t[9], (3, 3));
    assert_eq!(t[17], (5, 5));
    let h = uncoupled_index_table(StateSpace::Hilbert, Basis::Zeeman, 2).unwrap();
    assert_eq!(h, vec![(0, 0), (1, 0), (0, 1), (1, 1), (2, 2), (3, 2), (2, 3), (3, 3)]);
    assert!(uncoupled_index_table(StateSpace::Liouville, Basis::Zeeman, 1).is_err());
    assert_eq!(
        uncoupled_index_table(StateSpace::Hilbert, Basis::Sphten, 1).unwrap_err().message(),
        "not implemented: uncoupled propagator indices for the sphten basis in a hilbert space"
    );
}

#[test]
fn without_an_interaction_there_is_nothing_to_split() {
    let s = resolve_splitting(false, no_options()).unwrap();
    assert_eq!((s.split_order, s.trotter_number, s.adapt), (0, 1, false));
    assert!(s.adaptset.is_empty() && s.notes.is_empty());
    let mut o = no_options();
    o.split_order = Some(4);
    let s = resolve_splitting(false, o).unwrap();
    assert_eq!(s.notes, vec![SplitNote::SplittingRemoved]);
}

#[test]
fn the_default_splitting_is_strang_with_one_trotter_step() {
    let s = resolve_splitting(true, no_options()).unwrap();
    assert_eq!((s.split_order, s.trotter_number, s.adapt), (2, 1, false));
    assert_eq!(s.adaptset, vec![(1, 2)]);
}

#[test]
fn both_sets_make_a_ladder_orders_outermost() {
    let mut o = no_options();
    o.splitset = Some(vec![4, 2]);
    o.trotterset = Some(vec![3, 1]);
    o.adaptset = Some(vec![(9, 9)]);
    let s = resolve_splitting(true, o).unwrap();
    assert_eq!((s.split_order, s.trotter_number, s.adapt), (2, 1, true));
    assert_eq!(s.adaptset, vec![(3, 4), (1, 4), (3, 2), (1, 2)]);
    assert_eq!(s.notes, vec![SplitNote::SetsOverrideAdaptset]);
}

#[test]
fn one_set_runs_against_the_other_starting_value() {
    let mut o = no_options();
    o.trotterset = Some(vec![2, 5]);
    o.split_order = Some(4);
    let s = resolve_splitting(true, o).unwrap();
    assert_eq!(s.adaptset, vec![(2, 4), (5, 4)]);
    assert_eq!(s.trotter_number, 2);
    let mut o = no_options();
    o.splitset = Some(vec![6, 1]);
    o.trotter_number = Some(3);
    o.adaptset = Some(vec![]);
    let s = resolve_splitting(true, o).unwrap();
    assert_eq!(s.split_order, 1);
    assert_eq!(s.adaptset, vec![(3, 6), (3, 1)]);
    assert_eq!(s.notes, vec![SplitNote::SplitsetOverridesAdaptset]);
}

#[test]
fn a_method_overrides_an_order_and_bad_sets_are_refused() {
    let mut o = no_options();
    o.method_order = Some(6);
    o.split_order = Some(1);
    let s = resolve_splitting(true, o).unwrap();
    assert_eq!(s.split_order, 6);
    assert_eq!(s.notes, vec![SplitNote::MethodOverridesOrder]);

    let mut o = no_options();
    o.splitset = Some(vec![]);
    assert_eq!(
        resolve_splitting(true, o).unwrap_err().message(),
        "invalid configuration: splitset must not be empty"
    );
    let mut o = no_options();
    o.trotterset = Some(vec![]);
    assert_eq!(
        resolve_splitting(true, o).unwrap_err().message(),
        "invalid configuration: trotterset must not be empty"
    );
    let mut o = no_options();
    o.split_order = Some(5);
    assert_eq!(
        resolve_splitting(true, o).unwrap_err().message(),
        "invalid configuration: splitting order 5 is not coded"
    );
    let mut o = no_options();
    o.adaptset = Some(vec![(1, 2), (2, 2)]);
    let s = resolve_splitting(true, o).unwrap();
    assert!(s.adapt);
    assert_eq!(s.adaptset, vec![(1, 2), (2, 2)]);
}

#[test]
fn symmetry_flags_need_a_magnitude_of_two() {
    assert_eq!(symmetry_flags(Some([1, -1])), ([1, -1], true));
    assert_eq!(symmetry_flags(Some([2, 0])), ([2, 0], true));
    assert_eq!(symmetry_flags(Some([1, 0])), ([0, 0], false));
    assert_eq!(symmetry_flags(None), ([0, 0], false));
}

#[test]
fn multiplicities_are_counted_in_increasing_order() {
    assert_eq!(multiplicity_counts(&vec![2, 3, 2, 2, 5, 3]), vec![(2, 3), (3, 2), (5, 1)]);
    assert_eq!(multiplicity_counts(&vec![]), vec![]);
    assert_eq!(multiplicity_counts(&vec![4, 1]), vec![(1, 1), (4, 1)]);
}

#[test]
fn index_tables_follow_the_objective_function() {
    let (single, grad) = index_tables(Some(vec![(0, 0), (1, 1)]), true, true, StateSpace::Liouville, Basis::Zeeman, 9).unwrap();
    assert_eq!(single, vec![(0, 0), (1, 1)]);
    assert_eq!(grad, vec![vec![(0, 0), (1, 1)]]);
    let (single, grad) = index_tables(None, false, false, StateSpace::Liouville, Basis::Sphten, 2).unwrap();
    assert!(single.is_empty());
    assert_eq!(grad, vec![Vec::<(usize, usize)>::new()]);
    let (single, grad) = index_tables(None, true, true, StateSpace::Hilbert, Basis::Zeeman, 2).unwrap();
    assert_eq!(single.len(), 8);
    assert_eq!(grad, vec![single.clone()]);
    let (single, grad) = index_tables(None, true, false, StateSpace::Liouville, Basis::Sphten, 3).unwrap();
    assert_eq!(single.len(), 10);
    assert_eq!(grad.len(), 3);
    assert_eq!(
        index_tables(None, true, false, StateSpace::Hilbert, Basis::Zeeman, 3).unwrap_err().message(),
        "not implemented: zeeman-hilbert propagator indices for 3 spins"
    );
    assert!(index_tables(None, true, true, StateSpace::Liouville, Basis::Zeeman, 2).is_err());
}

#[test]
fn rungs_are_found_on_the_ladder() {
    let ladder = vec![(1, 2), (2, 2), (1, 4), (2, 2)];
    assert_eq!(ladder_index(&ladder, 2, 2), Some(1));
    assert_eq!(ladder_index(&ladder, 1, 4), Some(2));
    assert_eq!(ladder_index(&ladder, 3, 2), None);
    assert_eq!(split_slot(1, 7).unwrap(), 0);
    assert_eq!(split_slot(3, 2).unwrap(), 2);
    assert_eq!(
        split_slot(3, 3).unwrap_err().message(),
        "dimension mismatch: no splitting data for ladder rung 3"
    );
    assert_eq!(current_split_slot(&ladder, 1, 4, 4).unwrap(), 2);
    assert_eq!(current_split_slot(&ladder, 9, 9, 4).unwrap(), 0);
    assert!(current_split_slot(&ladder, 1, 4, 2).is_err());
}

#[test]
fn time_dependent_terms_hand_out_their_slices() {
    let c: TimeDependent<u32> = TimeDependent::Constant(7);
    assert_eq!(*c.at(100).unwrap(), 7);
    assert!(c.is_constant());
    let p: TimeDependent<u32> = TimeDependent::PerStep(vec![1, 2, 3]);
    assert_eq!(*p.at(2).unwrap(), 3);
    assert!(!p.is_constant());
    assert_eq!(
        p.at(3).unwrap_err().message(),
        "dimension mismatch: no time-dependent operator for step 3"
    );
}
