use vstd::prelude::*;
use crate::gate::{Gate, GateKind};

verus! {

/// Holds the information of a quantum circuit: a fixed qubit count and the
/// ordered, append-only list of gate descriptors.  The order of `gates` is
/// the application order when the circuit is simulated.
///
/// A builder: `new` begins with no gates, and each of `x`, `y`, `z`, `h`
/// and `cx` appends one descriptor.  `cx` takes the control qubit first
/// and the target second.
pub struct Circuit {
    pub qubits: usize,
    pub gates: Vec<Gate>,
}

impl Circuit {
    /// A circuit with `q` qubits and no gates.
    pub fn new(q: usize) -> (r: Circuit)
        ensures
            r.qubits == q,
            r.gates@.len() == 0,
    {
        Circuit { qubits: q, gates: Vec::<Gate>::new() }
    }

    /// Append a Pauli-X gate on qubit `q`.
    pub fn x(&mut self, q: usize)
        ensures
            final(self).qubits == old(self).qubits,
            final(self).gates@ == old(self).gates@.push(
                Gate { kind: GateKind::PauliX, target: q, control: None },
            ),
    {
        self.gates.push(Gate { kind: GateKind::PauliX, target: q, control: None })
    }

    /// Append a Pauli-Y gate on qubit `q`.
    pub fn y(&mut self, q: usize)
        ensures
            final(self).qubits == old(self).qubits,
            final(self).gates@ == old(self).gates@.push(
                Gate { kind: GateKind::PauliY, target: q, control: None },
            ),
    {
        self.gates.push(Gate { kind: GateKind::PauliY, target: q, control: None })
    }

    /// Append a Pauli-Z gate on qubit `q`.
    pub fn z(&mut self, q: usize)
        ensures
            final(self).qubits == old(self).qubits,
            final(self).gates@ == old(self).gates@.push(
                Gate { kind: GateKind::PauliZ, target: q, control: None },
            ),
    {
        self.gates.push(Gate { kind: GateKind::PauliZ, target: q, control: None })
    }

    /// Append a Hadamard gate on qubit `q`.
    pub fn h(&mut self, q: usize)
        ensures
            final(self).qubits == old(self).qubits,
            final(self).gates@ == old(self).gates@.push(
                Gate { kind: GateKind::Hadamard, target: q, control: None },
            ),
    {
        self.gates.push(Gate { kind: GateKind::Hadamard, target: q, control: None })
    }

    /// Append a controlled-NOT gate with control `c` and target `t`.
    pub fn cx(&mut self, c: usize, t: usize)
        ensures
            final(self).qubits == old(self).qubits,
            final(self).gates@ == old(self).gates@.push(
                Gate { kind: GateKind::ControlledNot, target: t, control: Some(c) },
            ),
    {
        self.gates.push(Gate { kind: GateKind::ControlledNot, target: t, control: Some(c) })
    }
}

} // verus!
