use qoala::gates::{bit, check_one_qubit, check_two_qubit, two_qubit_target, with_bit};

#[test]
fn qubit_zero_is_the_most_significant_bit() {
    // 0b101 in a three-qubit register.
    assert_eq!(bit(5, 0, 3), 1);
    assert_eq!(bit(5, 1, 3), 0);
    assert_eq!(bit(5, 2, 3), 1);
}

#[test]
fn setting_a_bit_reads_back_and_leaves_the_rest() {
    for k in 0..64usize {
        for q in 0..6 {
            for v in 0..2 {
                let r = with_bit(k, q, 6, v);
                assert_eq!(bit(r, q, 6), v);
                for p in 0..6 {
                    if p != q {
                        assert_eq!(bit(r, p, 6), bit(k, p, 6));
                    }
                }
            }
        }
    }
    assert_eq!(with_bit(0b000, 1, 3, 1), 0b010);
    assert_eq!(with_bit(0b111, 0, 3, 0), 0b011);
    // Any value other than one clears the bit.
    assert_eq!(with_bit(0b111, 0, 3, 2), 0b011);
}

#[test]
fn embeddings_are_checked() {
    assert!(check_one_qubit(3, 2, 2, 2).is_ok());
    assert_eq!(
        check_one_qubit(0, 0, 2, 2).unwrap_err().message(),
        "invalid configuration: embedding needs between 1 and 6 spins, got 0"
    );
    assert_eq!(
        check_one_qubit(3, 3, 2, 2).unwrap_err().message(),
        "invalid configuration: qubit 3 is outside a 3-spin register"
    );
    assert_eq!(
        check_one_qubit(3, 0, 4, 4).unwrap_err().message(),
        "dimension mismatch: a single-qubit gate must be 2x2, got 4x4"
    );
    assert!(check_two_qubit(3, 2, 0, 4, 4).is_ok());
    assert_eq!(
        check_two_qubit(7, 0, 1, 4, 4).unwrap_err().message(),
        "invalid configuration: embedding a two-qubit gate needs between 2 and 6 spins, got 7"
    );
    assert_eq!(
        check_two_qubit(3, 0, 5, 4, 4).unwrap_err().message(),
        "invalid configuration: qubits (0, 5) are outside a 3-spin register"
    );
    assert_eq!(
        check_two_qubit(3, 1, 1, 4, 4).unwrap_err().message(),
        "invalid configuration: a two-qubit gate needs two distinct qubits, got (1, 1)"
    );
    assert_eq!(
        check_two_qubit(3, 0, 1, 2, 2).unwrap_err().message(),
        "dimension mismatch: a two-qubit gate must be 4x4, got 2x2"
    );
}

#[test]
fn a_cnot_on_qubits_two_and_zero_moves_the_right_bits() {
    // Register column 0b100 (qubit 0 up): gate column 2*0 + 1 is read.
    let (row, gcol) = two_qubit_target(3, 2, 0, 0b100, 3);
    assert_eq!(gcol, 1);
    // Gate row 3 sets both qubits.
    assert_eq!(row, 0b101);
    let (row, gcol) = two_qubit_target(3, 0, 1, 0b011, 0);
    assert_eq!(gcol, 1);
    assert_eq!(row, 0b001);
}
