use qsim::amp::Amp;
use qsim::circuit::Circuit;
use qsim::gate::{Gate, GateKind, Matrix, SimError};
use qsim::simulator::{Simulator, State};

fn amp(a: i64, b: i64, c: i64, d: i64, k: u32) -> Amp {
    Amp { a, b, c, d, k }
}

fn rows(m: &Matrix) -> Vec<Vec<Amp>> {
    m.entries.clone()
}

#[test]
fn empty_circuit() {
    let circ = Circuit { qubits: 0, gates: Vec::new() };

    assert_eq!(circ.qubits, 0);
    assert_eq!(circ.gates, Vec::<Gate>::new());
}

#[test]
fn one_of_each() {
    let mut circ = Circuit { qubits: 4, gates: Vec::new() };
    circ.x(0);
    circ.y(1);
    circ.z(2);
    circ.h(3);
    circ.cx(0, 1);

    let mut expected = Vec::<Gate>::new();
    expected.push(Gate { kind: GateKind::PauliX, target: 0, control: None });
    expected.push(Gate { kind: GateKind::PauliY, target: 1, control: None });
    expected.push(Gate { kind: GateKind::PauliZ, target: 2, control: None });
    expected.push(Gate { kind: GateKind::Hadamard, target: 3, control: None });
    expected.push(Gate { kind: GateKind::ControlledNot, control: Some(0), target: 1 });

    assert_eq!(circ.qubits, 4);
    assert_eq!(circ.gates, expected);
}

#[test]
fn test_gate_matrices() {
}

#[test]
fn test_kron_qubit_gates() {
    let zero = amp(0, 0, 0, 0, 0);
    let one = amp(1, 0, 0, 0, 0);
    // X on the second qubit: Kronecker(X, Identity) under the convention
    // that qubit 0 is the least significant label bit
    let x_tens_id = vec![
        vec![zero, zero, one, zero],
        vec![zero, zero, zero, one],
        vec![one, zero, zero, zero],
        vec![zero, one, zero, zero],
    ];
    // X on the first qubit: Kronecker(Identity, X)
    let id_tens_x = vec![
        vec![zero, one, zero, zero],
        vec![one, zero, zero, zero],
        vec![zero, zero, zero, one],
        vec![zero, zero, one, zero],
    ];

    let xgate0 = Gate { kind: GateKind::PauliX, target: 0, control: None };
    let xgate1 = Gate { kind: GateKind::PauliX, target: 1, control: None };

    assert_eq!(rows(&xgate1.get_matrix(2).unwrap()), x_tens_id);
    assert_eq!(rows(&xgate0.get_matrix(2).unwrap()), id_tens_x);
}

#[test]
fn no_state() {
    let s = State::new(None);
    assert_eq!(s.coefs, Vec::<Amp>::new());
}

#[test]
fn qubit_states() {
    let s = State::new(Some(1));
    let expected = vec![amp(1, 0, 0, 0, 0), amp(0, 0, 0, 0, 0)];
    assert_eq!(s.coefs, expected);
}

#[test]
fn test_2x_circuit() {
    let mut c = Circuit::new(3);
    c.x(0);
    c.x(2);
    let mut s = Simulator::new(c);
    s.run().unwrap();

    let expected = "0.0000+0.0000i: 000, 0.0000+0.0000i: 001, 0.0000+0.0000i: 010, 0.0000+0.0000i: 011, 0.0000+0.0000i: 100, 1.0000+0.0000i: 101, 0.0000+0.0000i: 110, 0.0000+0.0000i: 111";
    assert_eq!(s.state.print(), expected);
}

#[test]
fn test_cnot_circuit() {
    let mut c = Circuit::new(2);
    c.x(0);
    c.cx(0, 1);
    let mut s = Simulator::new(c);
    s.run().unwrap();

    let expected = "0.0000+0.0000i: 00, 0.0000+0.0000i: 01, 0.0000+0.0000i: 10, 1.0000+0.0000i: 11";
    assert_eq!(s.state.print(), expected);
}

#[test]
fn ground_state_untouched_by_empty_circuit() {
    let c = Circuit::new(1);
    let mut s = Simulator::new(c);
    s.run().unwrap();
    assert_eq!(s.state.coefs, vec![amp(1, 0, 0, 0, 0), amp(0, 0, 0, 0, 0)]);
    assert_eq!(s.state.print(), "1.0000+0.0000i: 0, 0.0000+0.0000i: 1");
}

#[test]
fn x_moves_the_ground_amplitude() {
    let mut c = Circuit::new(1);
    c.x(0);
    let mut s = Simulator::new(c);
    s.run().unwrap();
    assert_eq!(s.state.coefs, vec![amp(0, 0, 0, 0, 0), amp(1, 0, 0, 0, 0)]);
    assert_eq!(s.state.print(), "0.0000+0.0000i: 0, 1.0000+0.0000i: 1");
}

#[test]
fn three_qubit_double_x_amplitudes() {
    let mut c = Circuit::new(3);
    c.x(0);
    c.x(2);
    let mut s = Simulator::new(c);
    s.run().unwrap();
    for i in 0..8usize {
        let expected = if i == 5 { amp(1, 0, 0, 0, 0) } else { amp(0, 0, 0, 0, 0) };
        assert_eq!(s.state.coefs[i], expected);
    }
}

#[test]
fn bell_style_propagation() {
    let mut c = Circuit::new(2);
    c.x(0);
    c.cx(0, 1);
    let mut s = Simulator::new(c);
    s.run().unwrap();
    assert_eq!(s.state.coefs[3], amp(1, 0, 0, 0, 0));
    for i in 0..3usize {
        assert_eq!(s.state.coefs[i], amp(0, 0, 0, 0, 0));
    }
}

#[test]
fn hadamard_renders_exact_half_sqrt2() {
    let mut c = Circuit::new(1);
    c.h(0);
    let mut s = Simulator::new(c);
    s.run().unwrap();
    assert_eq!(s.state.print(), "0.7071+0.0000i: 0, 0.7071+0.0000i: 1");
}

#[test]
fn hadamard_twice_restores_ground() {
    let mut c = Circuit::new(1);
    c.h(0);
    c.h(0);
    let mut s = Simulator::new(c);
    s.run().unwrap();
    // the exact value is 1 at label 0 and 0 at label 1, held at exponent 2
    assert_eq!(s.state.print(), "1.0000+0.0000i: 0, 0.0000+0.0000i: 1");
}

#[test]
fn x_twice_is_identity_on_state() {
    let mut c = Circuit::new(2);
    c.x(1);
    c.x(1);
    let mut s = Simulator::new(c);
    s.run().unwrap();
    assert_eq!(s.state.coefs[0], amp(1, 0, 0, 0, 0));
    for i in 1..4usize {
        assert_eq!(s.state.coefs[i], amp(0, 0, 0, 0, 0));
    }
}

#[test]
fn y_gate_gives_imaginary_amplitude() {
    let mut c = Circuit::new(1);
    c.y(0);
    let mut s = Simulator::new(c);
    s.run().unwrap();
    assert_eq!(s.state.coefs[1], amp(0, 0, 1, 0, 0));
    assert_eq!(s.state.print(), "0.0000+0.0000i: 0, 0.0000+1.0000i: 1");
}

#[test]
fn z_after_x_negates() {
    let mut c = Circuit::new(1);
    c.x(0);
    c.z(0);
    let mut s = Simulator::new(c);
    s.run().unwrap();
    assert_eq!(s.state.coefs[1], amp(-1, 0, 0, 0, 0));
    assert_eq!(s.state.print(), "0.0000+0.0000i: 0, -1.0000+0.0000i: 1");
}

#[test]
fn cnot_matrix_is_permutation() {
    let g = Gate { kind: GateKind::ControlledNot, control: Some(0), target: 1 };
    let m = g.get_matrix(2).unwrap();
    let one = amp(1, 0, 0, 0, 0);
    for i in 0..4usize {
        let mut row_ones = 0;
        let mut col_ones = 0;
        for j in 0..4usize {
            if m.entries[i][j] == one {
                row_ones += 1;
            } else {
                assert_eq!(m.entries[i][j], amp(0, 0, 0, 0, 0));
            }
            if m.entries[j][i] == one {
                col_ones += 1;
            }
        }
        assert_eq!(row_ones, 1);
        assert_eq!(col_ones, 1);
    }
}

#[test]
fn invalid_control_equals_target() {
    let g = Gate { kind: GateKind::ControlledNot, control: Some(1), target: 1 };
    assert_eq!(g.get_matrix(2), Err(SimError::InvalidDescriptor));

    let mut c = Circuit::new(2);
    c.cx(1, 1);
    let mut s = Simulator::new(c);
    assert_eq!(s.run(), Err(SimError::InvalidDescriptor));
}

#[test]
fn invalid_target_out_of_range() {
    let g = Gate { kind: GateKind::PauliX, target: 2, control: None };
    assert_eq!(g.get_matrix(2), Err(SimError::InvalidDescriptor));

    let mut c = Circuit::new(1);
    c.x(1);
    let mut s = Simulator::new(c);
    assert_eq!(s.run(), Err(SimError::InvalidDescriptor));
}

#[test]
fn invalid_control_on_single_qubit_kind() {
    let g = Gate { kind: GateKind::PauliZ, target: 0, control: Some(1) };
    assert_eq!(g.get_matrix(2), Err(SimError::InvalidDescriptor));
}

#[test]
fn invalid_missing_control_on_cnot() {
    let g = Gate { kind: GateKind::ControlledNot, target: 0, control: None };
    assert_eq!(g.get_matrix(2), Err(SimError::InvalidDescriptor));
}

#[test]
fn dimension_mismatch_after_outside_mutation() {
    let c = Circuit::new(1);
    let mut s = Simulator::new(c);
    s.circ.qubits = 2;
    assert_eq!(s.run(), Err(SimError::DimensionMismatch));
}

#[test]
fn deep_hadamard_chain_overflows_exactly() {
    // each Hadamard raises the representation exponent by one; past the
    // representable range the run fails instead of rounding
    let mut c = Circuit::new(1);
    for _ in 0..61 {
        c.h(0);
    }
    let mut s = Simulator::new(c);
    assert_eq!(s.run(), Err(SimError::CapacityExceeded));
}

#[test]
fn exact_amplitude_arithmetic_round_trip() {
    // (1/sqrt(2)) * (1/sqrt(2)) + (1/sqrt(2)) * (1/sqrt(2)) == 1 at exponent 2
    let h = amp(1, 0, 0, 0, 1);
    let p = h.checked_mul(&h).unwrap();
    let s = p.checked_add(&p).unwrap();
    assert_eq!(s, amp(2, 0, 0, 0, 2));
}

#[test]
fn gate_descriptions() {
    let x = Gate { kind: GateKind::PauliX, target: 0, control: None };
    let cx = Gate { kind: GateKind::ControlledNot, target: 3, control: Some(10) };
    assert_eq!(x.describe(), "X(0)");
    assert_eq!(cx.describe(), "CX(10,3)");
}

/// Lift an exact amplitude's coefficients to a chosen larger exponent, for
/// value comparison: each step multiplies numerator and denominator by
/// sqrt(2).
fn lifted(mut a: Amp, k: u32) -> Amp {
    while a.k < k {
        a = Amp { a: 2 * a.b, b: a.a, c: 2 * a.d, d: a.c, k: a.k + 1 };
    }
    a
}

fn same_value(x: Amp, y: Amp) -> bool {
    let k = x.k.max(y.k);
    lifted(x, k) == lifted(y, k)
}

#[test]
fn unitary_hadamard_two_qubits() {
    let g = Gate { kind: GateKind::Hadamard, target: 1, control: None };
    let m = g.get_matrix(2).unwrap();
    for i in 0..4usize {
        for j in 0..4usize {
            let mut acc = Amp { a: 0, b: 0, c: 0, d: 0, k: 0 };
            for l in 0..4usize {
                let term = m.entries[i][l].checked_mul(&m.entries[j][l].conj()).unwrap();
                acc = acc.checked_add(&term).unwrap();
            }
            let expected = if i == j { amp(1, 0, 0, 0, 0) } else { amp(0, 0, 0, 0, 0) };
            assert!(same_value(acc, expected), "gram entry ({}, {})", i, j);
        }
    }
}
