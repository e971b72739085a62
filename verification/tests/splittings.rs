use qoala::splittings::split_indices;

#[test]
fn strang_alternates_one_spin_stage_with_the_interaction() {
    let (spin, inter) = split_indices(2, 1).unwrap();
    assert_eq!(spin, vec![0]);
    assert_eq!(inter, vec![0, 0]);
    let (spin, inter) = split_indices(2, 3).unwrap();
    assert_eq!(spin, vec![0, 0, 0]);
    assert_eq!(inter, vec![0, 1, 1, 0]);
}

#[test]
fn higher_orders_repeat_their_inner_stages() {
    let (spin, inter) = split_indices(3, 2).unwrap();
    assert_eq!(spin, vec![0, 1, 0, 0, 1, 0]);
    assert_eq!(inter, vec![0, 1, 2, 4, 1, 2, 3]);
    let (spin, inter) = split_indices(6, 1).unwrap();
    assert_eq!(spin, vec![0, 1, 2, 3, 4, 4, 3, 2, 1, 0]);
    assert_eq!(inter, vec![0, 1, 2, 3, 4, 5, 4, 3, 2, 1, 0]);
}

#[test]
fn unknown_orders_and_zero_trotter_steps_are_refused() {
    assert_eq!(
        split_indices(5, 1).unwrap_err().message(),
        "invalid configuration: splitting order 5 is not coded"
    );
    assert_eq!(
        split_indices(2, 0).unwrap_err().message(),
        "invalid configuration: Trotter number must be at least 1"
    );
}
