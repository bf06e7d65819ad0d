use novel_quantum_structures::embed::{bit_of, capacity, cross_lift_entries, qubit_bit_swap_target, with_bit, HostRegister};

#[test]
fn capacities() {
    assert_eq!(capacity(2), 1);
    assert_eq!(capacity(3), 1);
    assert_eq!(capacity(4), 2);
    assert_eq!(capacity(5), 2);
    assert_eq!(capacity(8), 3);
    assert_eq!(capacity(9), 3);
}

#[test]
fn capacity_edges() {
    assert_eq!(capacity(1), 0);
    assert_eq!(capacity(1023), 9);
    assert_eq!(capacity(1024), 10);
    assert_eq!(capacity(usize::MAX), (usize::BITS - 1) as usize);
}

#[test]
fn basis_digits_encode_the_bits() {
    let reg = HostRegister::new(&[2, 3, 4, 5]);
    // Qubits: site0 bit0, site1 bit0, site2 bits(0,1), site3 bits(0,1) → 6 qubits.
    assert_eq!(reg.num_qubits(), 6);
    assert_eq!(reg.qubit_map, vec![(0, 0), (1, 0), (2, 0), (2, 1), (3, 0), (3, 1)]);
    let bits = [1, 0, 1, 1, 0, 1];
    let digits = reg.qubit_basis_to_digits(&bits);
    // site2 register (1,1) → level 3; site3 (0,1) → level 1.
    assert_eq!(digits, vec![1, 0, 3, 1]);
}

#[test]
fn diamond_hosts_ten_qubits() {
    let reg = HostRegister::new(&[2, 3, 4, 5, 4, 3, 2]);
    assert_eq!(reg.num_qubits(), 10);
    assert_eq!(reg.caps, vec![1, 1, 2, 2, 2, 1, 1]);
}

#[test]
fn every_qubit_pattern_decodes_back() {
    let reg = HostRegister::new(&[2, 9, 1, 6]);
    let q = reg.num_qubits();
    assert_eq!(q, 1 + 3 + 0 + 2);
    for pattern in 0..(1usize << q) {
        let bits: Vec<usize> = (0..q).map(|i| (pattern >> (q - 1 - i)) & 1).collect();
        let digits = reg.qubit_basis_to_digits(&bits);
        for (i, &(site, t)) in reg.qubit_map.iter().enumerate() {
            assert_eq!(bit_of(digits[site], t, reg.caps[site]), bits[i]);
        }
        for (s, &d) in digits.iter().enumerate() {
            assert!(d < (1usize << reg.caps[s]));
            assert!(d < reg.dims[s]);
        }
    }
}

#[test]
fn bit_access_is_big_endian() {
    assert_eq!(bit_of(6, 0, 3), 1);
    assert_eq!(bit_of(6, 1, 3), 1);
    assert_eq!(bit_of(6, 2, 3), 0);
    assert_eq!(with_bit(6, 0, 3, 0), 2);
    assert_eq!(with_bit(6, 2, 3, 1), 7);
    assert_eq!(with_bit(6, 1, 3, 1), 6);
}

#[test]
fn basis_encoding_roundtrip() {
    let reg = HostRegister::new(&[2, 3, 4, 5]);
    // Qubits: site0 bit0, site1 bit0, site2 bits(0,1), site3 bits(0,1) → 6 qubits.
    assert_eq!(reg.num_qubits(), 6);
    let bits = [1, 0, 1, 1, 0, 1];
    let digits = reg.qubit_basis_to_digits(&bits);
    // site2 register (1,1) → level 3; site3 (0,1) → level 1.
    assert_eq!(digits, vec![1, 0, 3, 1]);
    let qidx = bits.iter().fold(0usize, |acc, &b| (acc << 1) | b);
    assert_eq!(reg.register_index(&digits), Some(qidx));
}

#[test]
fn slack_levels_are_outside_the_register() {
    let reg = HostRegister::new(&[2, 3, 4, 5]);
    // Level 4 on the 5-dit and level 2 on the 3-dit are slack.
    assert_eq!(reg.register_index(&[1, 0, 3, 4]), None);
    assert_eq!(reg.register_index(&[1, 2, 0, 0]), None);
    assert_eq!(reg.register_index(&[0, 0, 0, 0]), Some(0));
}

#[test]
fn qubit_bit_swap_moves_a_bit() {
    // Host d=5 (k=2). Swap qubit with bit t=0 (MSB). |a=1, l=0⟩ → |0, l=2⟩.
    assert_eq!(qubit_bit_swap_target(5, 0, 5), 2);
    // Slack level 4 untouched: |1, 4⟩ fixed.
    assert_eq!(qubit_bit_swap_target(5, 0, 9), 9);
}

#[test]
fn qubit_bit_swap_is_an_involution() {
    for d in [4usize, 5, 6, 8, 9] {
        for t in 0..capacity(d) {
            let mut seen = vec![false; 2 * d];
            for col in 0..2 * d {
                let row = qubit_bit_swap_target(d, t, col);
                assert!(row < 2 * d);
                assert!(!seen[row]);
                seen[row] = true;
                assert_eq!(qubit_bit_swap_target(d, t, row), col);
            }
        }
    }
}

#[test]
fn cross_lift_never_mixes_register_and_slack() {
    use_cross_lift(3, 0, 5, 1);
    use_cross_lift(4, 1, 6, 0);
    use_cross_lift(2, 0, 2, 0);
}

fn use_cross_lift(da: usize, ta: usize, db: usize, tb: usize) {
    let (ka, kb) = (capacity(da), capacity(db));
    let in_reg = |x: usize| x / db < (1 << ka) && x % db < (1 << kb);
    let entries = cross_lift_entries(da, ta, db, tb);
    let mut per_col = vec![0usize; da * db];
    for &(row, col, source) in &entries {
        assert!(row < da * db && col < da * db);
        per_col[col] += 1;
        match source {
            Some((gr, gc)) => {
                assert!(in_reg(row) && in_reg(col));
                assert!(gr < 4 && gc < 4);
                // The carried bits sit at offsets ta, tb of the two levels.
                let (la, lb) = (col / db, col % db);
                assert_eq!(gc, bit_of(la, ta, ka) * 2 + bit_of(lb, tb, kb));
                let (ra, rb) = (row / db, row % db);
                assert_eq!(gr, bit_of(ra, ta, ka) * 2 + bit_of(rb, tb, kb));
            }
            None => {
                assert_eq!(row, col);
                assert!(!in_reg(col));
            }
        }
    }
    for col in 0..da * db {
        assert_eq!(per_col[col], if in_reg(col) { 4 } else { 1 });
    }
}
