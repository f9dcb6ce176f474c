use rust_sim::basis::{
    cnot_image, cnot_permutation, dimension, embedded_entry, flip_wire, kron_source, outcome_bits,
    wire_bit,
    wire_weight,
};

#[test]
fn dimension_is_two_to_the_qubit_count() {
    assert_eq!(dimension(0), 1);
    assert_eq!(dimension(1), 2);
    assert_eq!(dimension(2), 4);
    assert_eq!(dimension(10), 1024);
}

#[test]
fn wire_zero_is_the_most_significant_bit() {
    assert_eq!(wire_weight(0, 3), 4);
    assert_eq!(wire_weight(2, 3), 1);
    assert_eq!(wire_bit(2, 0, 2), 1);
    assert_eq!(wire_bit(2, 1, 2), 0);
    assert_eq!(wire_bit(5, 0, 3), 1);
    assert_eq!(wire_bit(5, 1, 3), 0);
    assert_eq!(wire_bit(5, 2, 3), 1);
}

#[test]
fn flip_wire_inverts_one_bit() {
    assert_eq!(flip_wire(0, 0, 2), 2);
    assert_eq!(flip_wire(2, 0, 2), 0);
    assert_eq!(flip_wire(2, 1, 2), 3);
    assert_eq!(flip_wire(6, 2, 3), 7);
}

#[test]
fn x_twice_restores_every_index() {
    for n in 1..5 {
        for wire in 0..n {
            for i in 0..dimension(n) {
                assert_eq!(flip_wire(flip_wire(i, wire, n), wire, n), i);
            }
        }
    }
}

#[test]
fn cnot_on_adjacent_wires() {
    assert_eq!(cnot_permutation(0, 1, 2), vec![0, 1, 3, 2]);
    assert_eq!(cnot_permutation(1, 0, 2), vec![0, 3, 2, 1]);
}

#[test]
fn cnot_on_distant_wires() {
    assert_eq!(cnot_permutation(0, 2, 3), vec![0, 1, 2, 3, 5, 4, 7, 6]);
    assert_eq!(cnot_permutation(2, 0, 3), vec![0, 5, 2, 7, 4, 1, 6, 3]);
}

#[test]
fn cnot_twice_restores_every_index() {
    let n = 4;
    for control in 0..n {
        for target in 0..n {
            if control == target {
                continue;
            }
            let p = cnot_permutation(control, target, n);
            for i in 0..dimension(n) {
                assert_eq!(p[p[i]], i);
            }
        }
    }
}

#[test]
fn x_then_cnot_puts_all_mass_on_index_three() {
    let after_x = flip_wire(0, 0, 2);
    assert_eq!(after_x, 2);
    assert_eq!(cnot_image(after_x, 0, 1, 2), 3);
    assert_eq!(outcome_bits(3, 2), vec![1, 1]);
}

#[test]
fn embedded_entry_on_last_wire() {
    assert_eq!(embedded_entry(0, 1, 1, 2), Some((0, 1)));
    assert_eq!(embedded_entry(2, 3, 1, 2), Some((0, 1)));
    assert_eq!(embedded_entry(3, 3, 1, 2), Some((1, 1)));
    assert_eq!(embedded_entry(0, 2, 1, 2), None);
    assert_eq!(embedded_entry(1, 2, 1, 2), None);
}

#[test]
fn embedded_entry_on_first_wire() {
    assert_eq!(embedded_entry(0, 2, 0, 2), Some((0, 1)));
    assert_eq!(embedded_entry(3, 1, 0, 2), Some((1, 0)));
    assert_eq!(embedded_entry(1, 2, 0, 2), None);
    assert_eq!(embedded_entry(5, 1, 0, 3), Some((1, 0)));
    assert_eq!(embedded_entry(5, 3, 0, 3), None);
}

#[test]
fn embedded_entry_matches_identity_tensor_gate() {
    // On 3 qubits with G on the middle wire, I ⊗ G ⊗ I has a nonzero
    // pattern exactly where the outer bits agree.
    let n = 3;
    for row in 0..8usize {
        for col in 0..8usize {
            let outer_agree = (row & 0b101) == (col & 0b101);
            let expected = if outer_agree { Some(((row >> 1) & 1, (col >> 1) & 1)) } else { None };
            assert_eq!(embedded_entry(row, col, 1, n), expected);
        }
    }
}

#[test]
fn outcome_bits_wire_zero_first() {
    assert_eq!(outcome_bits(3, 2), vec![1, 1]);
    assert_eq!(outcome_bits(2, 3), vec![0, 1, 0]);
    assert_eq!(outcome_bits(4, 3), vec![1, 0, 0]);
    assert_eq!(outcome_bits(1, 1), vec![1]);
    assert_eq!(outcome_bits(0, 0), Vec::<usize>::new());
}

#[test]
fn kron_source_splits_row_and_column() {
    // A is 2x3, B is 3x2: entry (4, 5) of A ⊗ B is A(1, 2)·B(1, 1).
    assert_eq!(kron_source(4, 5, 3, 2), ((1, 2), (1, 1)));
    assert_eq!(kron_source(0, 0, 3, 2), ((0, 0), (0, 0)));
    assert_eq!(kron_source(5, 1, 3, 2), ((1, 0), (2, 1)));
    assert_eq!(kron_source(3, 3, 1, 1), ((3, 3), (0, 0)));
}

#[test]
fn cnot_with_equal_wires_clears_the_bit() {
    // Control and target on one wire: the set bit is cleared, so two indices meet.
    assert_eq!(cnot_permutation(0, 0, 2), vec![0, 1, 0, 1]);
}

#[test]
fn x_then_cnot_from_ground_sets_both_wires() {
    // Three qubits, control on wire 0 (weight 4), target on wire 2 (weight 1).
    let after_x = flip_wire(0, 0, 3);
    assert_eq!(after_x, 4);
    assert_eq!(cnot_image(after_x, 0, 2, 3), 5);
    // Control below target: wire 2 (weight 1) controls wire 1 (weight 2).
    assert_eq!(cnot_image(flip_wire(0, 2, 3), 2, 1, 3), 3);
}
