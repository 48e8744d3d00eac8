use vstd::prelude::*;
use crate::amp::{Amp, AmpModel, amp_wf, m_one, m_zero};
use crate::bits::{bit, eq_except, eq_except2};

verus! {

// A gate descriptor names one gate of the closed vocabulary together with the
// qubits it acts on.  Expanding a descriptor against a qubit count `n` yields
// the full 2^n x 2^n operator; the expansion is specified entrywise below and
// `Gate::get_matrix` materializes it.

/// The closed gate vocabulary.
#[derive(Clone, Copy, PartialEq, Debug)]
pub enum GateKind {
    PauliX,
    PauliY,
    PauliZ,
    Hadamard,
    ControlledNot,
}

/// A gate applied to particular qubits: `target` is the qubit acted on, and
/// `control` is present exactly for `ControlledNot`.
#[derive(Clone, Copy, PartialEq, Debug)]
pub struct Gate {
    pub kind: GateKind,
    pub target: usize,
    pub control: Option<usize>,
}

/// The mathematical reading of a descriptor.
pub ghost struct GateView {
    pub kind: GateKind,
    pub target: nat,
    pub control: Option<nat>,
}

impl View for Gate {
    type V = GateView;

    open spec fn view(&self) -> GateView {
        GateView {
            kind: self.kind,
            target: self.target as nat,
            control: match self.control {
                Some(c) => Some(c as nat),
                None => None,
            },
        }
    }
}

/// What can go wrong while expanding a gate or running a circuit.
#[derive(Clone, Copy, PartialEq, Debug)]
pub enum SimError {
    /// A qubit index is out of range, control equals target, or a control
    /// is present on a single-qubit gate or missing on ControlledNot.
    InvalidDescriptor,
    /// The amplitude vector's length is not 2^n for the circuit's qubit
    /// count: an internal invariant was broken by outside mutation.
    DimensionMismatch,
    /// An exact amplitude left the representable coefficient range.
    CapacityExceeded,
}

/// The kinds that act on a single qubit.
pub open spec fn is_single_qubit(g: GateKind) -> bool {
    match g {
        GateKind::ControlledNot => false,
        _ => true,
    }
}

/// A descriptor is valid against qubit count `n` when its indices are in
/// range, control is present exactly for `ControlledNot`, and control and
/// target differ.
pub open spec fn gate_valid(g: GateView, n: nat) -> bool {
    match g.control {
        None => is_single_qubit(g.kind) && g.target < n,
        Some(c) => !is_single_qubit(g.kind) && g.target < n && c < n && c != g.target,
    }
}

/// The fixed 2x2 matrix of a single-qubit kind, by row `r` and column `c`:
///   X = [[0,1],[1,0]]      Y = [[0,-i],[i,0]]
///   Z = [[1,0],[0,-1]]     H = (1/sqrt(2)) [[1,1],[1,-1]]
pub open spec fn base_entry(g: GateKind, r: nat, c: nat) -> AmpModel {
    match g {
        GateKind::PauliX => if r != c {
            m_one()
        } else {
            m_zero()
        },
        GateKind::PauliY => if r == 0 && c == 1 {
            AmpModel { a: 0, b: 0, c: -1, d: 0, k: 0 }
        } else if r == 1 && c == 0 {
            AmpModel { a: 0, b: 0, c: 1, d: 0, k: 0 }
        } else {
            m_zero()
        },
        GateKind::PauliZ => if r == c {
            if r == 0 {
                m_one()
            } else {
                AmpModel { a: -1, b: 0, c: 0, d: 0, k: 0 }
            }
        } else {
            m_zero()
        },
        GateKind::Hadamard => if r == 1 && c == 1 {
            AmpModel { a: -1, b: 0, c: 0, d: 0, k: 1 }
        } else {
            AmpModel { a: 1, b: 0, c: 0, d: 0, k: 1 }
        },
        GateKind::ControlledNot => m_zero(),
    }
}

/// Entry (i, j) of the ControlledNot expansion is 1 exactly when either the
/// control bit is 0 in both labels and the labels coincide, or the control
/// bit is 1 in both, the target bits differ, and every other bit agrees.
pub open spec fn cnot_on(c: nat, t: nat, i: nat, j: nat) -> bool {
    ||| (bit(i, c) == 0 && bit(j, c) == 0 && i == j)
    ||| (bit(i, c) == 1 && bit(j, c) == 1 && bit(i, t) != bit(j, t) && eq_except2(i, j, c, t))
}

/// Entry (i, j) of the full 2^n x 2^n operator of a valid descriptor.
///
/// For a single-qubit kind this is the entry of the n-fold Kronecker product
/// that places the kind's 2x2 matrix at the target position and the 2x2
/// identity everywhere else, written in its closed entrywise form: the
/// identity factors force all non-target bits of row and column label to
/// agree, and what remains is the 2x2 entry selected by the target bits.
/// For ControlledNot it is the direct bit predicate `cnot_on`.
pub open spec fn gate_entry(g: GateView, n: nat, i: nat, j: nat) -> AmpModel {
    match g.control {
        Some(c) => if cnot_on(c, g.target, i, j) {
            m_one()
        } else {
            m_zero()
        },
        None => if eq_except(i, j, g.target) {
            base_entry(g.kind, bit(i, g.target), bit(j, g.target))
        } else {
            m_zero()
        },
    }
}

/// Every entry of an expansion is well formed and has exponent at most 1.
pub proof fn lemma_gate_entry_wf(g: GateView, n: nat, i: nat, j: nat)
    ensures
        amp_wf(gate_entry(g, n, i, j)),
        gate_entry(g, n, i, j).k <= 1,
{
}

/// The full operator: a dense square matrix of exact amplitudes.
#[derive(Clone, PartialEq, Debug)]
pub struct Matrix {
    pub entries: Vec<Vec<Amp>>,
}

pub open spec fn matrix_wf(mat: Matrix, n: nat) -> bool {
    &&& mat.entries@.len() == crate::p2(n)
    &&& forall|ii: int|
        0 <= ii < crate::p2(n) ==> (#[trigger] mat.entries@[ii])@.len() == crate::p2(n)
}

pub open spec fn matrix_entry(mat: Matrix, ii: int, jj: int) -> AmpModel {
    mat.entries@[ii]@[jj]@
}

/// The mathematical reading of a matrix: the nested sequence of its entries.
pub open spec fn mat_m(mat: Matrix) -> Seq<Seq<AmpModel>> {
    Seq::new(
        mat.entries@.len(),
        |i: int| Seq::new(mat.entries@[i]@.len(), |j: int| mat.entries@[i]@[j]@),
    )
}

/// `mat` is exactly the expansion of `g` over `n` qubits.
pub open spec fn matrix_is_gate(mat: Matrix, g: GateView, n: nat) -> bool {
    &&& matrix_wf(mat, n)
    &&& forall|ii: int, jj: int|
        0 <= ii < crate::p2(n) && 0 <= jj < crate::p2(n) ==> #[trigger] matrix_entry(mat, ii, jj)
            == gate_entry(g, n, ii as nat, jj as nat)
}

/// Bit `q` of label `i`, executably.
pub fn bit_of(i: usize, q: usize) -> (r: usize)
    requires
        crate::p2(q as nat) <= usize::MAX as nat,
    ensures
        r as nat == bit(i as nat, q as nat),
        r < 2,
{
    (i / crate::pow2_usize(q)) % 2
}

/// Do `i` and `j` agree on every qubit except `t`?  (Bits at positions `n`
/// and above are zero on both sides, so checking below `n` is enough.)
fn eq_except_check(i: usize, j: usize, t: usize, n: usize) -> (r: bool)
    requires
        (i as nat) < crate::p2(n as nat),
        (j as nat) < crate::p2(n as nat),
        crate::p2(n as nat) <= usize::MAX as nat,
    ensures
        r == eq_except(i as nat, j as nat, t as nat),
{
    let mut q: usize = 0;
    while q < n
        invariant
            q <= n,
            (i as nat) < crate::p2(n as nat),
            (j as nat) < crate::p2(n as nat),
            crate::p2(n as nat) <= usize::MAX as nat,
            forall|qq: nat| qq < q as nat && qq != t as nat ==> bit(i as nat, qq) == bit(
                j as nat,
                qq,
            ),
        decreases n - q,
    {
        if q != t {
            proof {
                crate::lemma_p2_le(q as nat, n as nat);
            }
            if bit_of(i, q) != bit_of(j, q) {
                return false;
            }
        }
        q = q + 1;
    }
    proof {
        assert forall|qq: nat| qq != t as nat implies bit(i as nat, qq) == bit(j as nat, qq) by {
            if qq >= n as nat {
                crate::bits::lemma_bit_high_zero(i as nat, n as nat, qq);
                crate::bits::lemma_bit_high_zero(j as nat, n as nat, qq);
            }
        };
    }
    true
}

/// Do `i` and `j` agree on every qubit except `c` and `t`?
fn eq_except2_check(i: usize, j: usize, c: usize, t: usize, n: usize) -> (r: bool)
    requires
        (i as nat) < crate::p2(n as nat),
        (j as nat) < crate::p2(n as nat),
        crate::p2(n as nat) <= usize::MAX as nat,
    ensures
        r == eq_except2(i as nat, j as nat, c as nat, t as nat),
{
    let mut q: usize = 0;
    while q < n
        invariant
            q <= n,
            (i as nat) < crate::p2(n as nat),
            (j as nat) < crate::p2(n as nat),
            crate::p2(n as nat) <= usize::MAX as nat,
            forall|qq: nat|
                qq < q as nat && qq != c as nat && qq != t as nat ==> bit(i as nat, qq) == bit(
                    j as nat,
                    qq,
                ),
        decreases n - q,
    {
        if q != c && q != t {
            proof {
                crate::lemma_p2_le(q as nat, n as nat);
            }
            if bit_of(i, q) != bit_of(j, q) {
                return false;
            }
        }
        q = q + 1;
    }
    proof {
        assert forall|qq: nat| qq != c as nat && qq != t as nat implies bit(i as nat, qq) == bit(
            j as nat,
            qq,
        ) by {
            if qq >= n as nat {
                crate::bits::lemma_bit_high_zero(i as nat, n as nat, qq);
                crate::bits::lemma_bit_high_zero(j as nat, n as nat, qq);
            }
        };
    }
    true
}

/// The 2x2 matrix entry of a single-qubit kind, as an executable amplitude.
fn base_amp(g: GateKind, r: usize, c: usize) -> (out: Amp)
    ensures
        out@ == base_entry(g, r as nat, c as nat),
        amp_wf(out@),
{
    match g {
        GateKind::PauliX => if r != c {
            Amp::one()
        } else {
            Amp::zero()
        },
        GateKind::PauliY => if r == 0 && c == 1 {
            Amp { a: 0, b: 0, c: -1, d: 0, k: 0 }
        } else if r == 1 && c == 0 {
            Amp { a: 0, b: 0, c: 1, d: 0, k: 0 }
        } else {
            Amp::zero()
        },
        GateKind::PauliZ => if r == c {
            if r == 0 {
                Amp::one()
            } else {
                Amp { a: -1, b: 0, c: 0, d: 0, k: 0 }
            }
        } else {
            Amp::zero()
        },
        GateKind::Hadamard => if r == 1 && c == 1 {
            Amp { a: -1, b: 0, c: 0, d: 0, k: 1 }
        } else {
            Amp { a: 1, b: 0, c: 0, d: 0, k: 1 }
        },
        GateKind::ControlledNot => Amp::zero(),
    }
}

impl Gate {
    /// Entry (i, j) of this gate's expansion over `nq` qubits.
    fn entry_at(&self, nq: usize, i: usize, j: usize) -> (r: Amp)
        requires
            gate_valid(self@, nq as nat),
            (i as nat) < crate::p2(nq as nat),
            (j as nat) < crate::p2(nq as nat),
            crate::p2(nq as nat) <= usize::MAX as nat,
        ensures
            r@ == gate_entry(self@, nq as nat, i as nat, j as nat),
            amp_wf(r@),
    {
        proof {
            crate::lemma_p2_le(self.target as nat, nq as nat);
        }
        match self.control {
            Some(c) => {
                proof {
                    crate::lemma_p2_le(c as nat, nq as nat);
                }
                let ci = bit_of(i, c);
                let cj = bit_of(j, c);
                let ti = bit_of(i, self.target);
                let tj = bit_of(j, self.target);
                if ci == 0 && cj == 0 && i == j {
                    Amp::one()
                } else if ci == 1 && cj == 1 && ti != tj && eq_except2_check(
                    i,
                    j,
                    c,
                    self.target,
                    nq,
                ) {
                    Amp::one()
                } else {
                    Amp::zero()
                }
            },
            None => {
                if eq_except_check(i, j, self.target, nq) {
                    base_amp(self.kind, bit_of(i, self.target), bit_of(j, self.target))
                } else {
                    Amp::zero()
                }
            },
        }
    }

    /// Expand this gate to its full 2^nq x 2^nq operator.
    ///
    /// Fails with `InvalidDescriptor` exactly when the descriptor is not
    /// valid against `nq`; a returned matrix is entrywise the specified
    /// expansion, never a silent default.
    pub fn get_matrix(&self, nq: usize) -> (r: Result<Matrix, SimError>)
        requires
            crate::p2(nq as nat) <= usize::MAX as nat,
        ensures
            r is Ok <==> gate_valid(self@, nq as nat),
            r matches Ok(m) ==> matrix_is_gate(m, self@, nq as nat),
            r matches Err(e) ==> e == SimError::InvalidDescriptor,
    {
        let valid = match self.control {
            None => match self.kind {
                GateKind::ControlledNot => false,
                _ => self.target < nq,
            },
            Some(c) => match self.kind {
                GateKind::ControlledNot => self.target < nq && c < nq && c != self.target,
                _ => false,
            },
        };
        if !valid {
            return Err(SimError::InvalidDescriptor);
        }
        let size = crate::pow2_usize(nq);
        let mut rows: Vec<Vec<Amp>> = Vec::new();
        let mut i: usize = 0;
        while i < size
            invariant
                i <= size,
                size as nat == crate::p2(nq as nat),
                crate::p2(nq as nat) <= usize::MAX as nat,
                gate_valid(self@, nq as nat),
                rows@.len() == i,
                forall|ii: int|
                    0 <= ii < i ==> (#[trigger] rows@[ii])@.len() == size,
                forall|ii: int, jj: int|
                    0 <= ii < i && 0 <= jj < size ==> (#[trigger] rows@[ii]@[jj])@ == gate_entry(
                        self@,
                        nq as nat,
                        ii as nat,
                        jj as nat,
                    ),
            decreases size - i,
        {
            let mut row: Vec<Amp> = Vec::new();
            let mut j: usize = 0;
            while j < size
                invariant
                    j <= size,
                    i < size,
                    size as nat == crate::p2(nq as nat),
                    crate::p2(nq as nat) <= usize::MAX as nat,
                    gate_valid(self@, nq as nat),
                    row@.len() == j,
                    forall|jj: int|
                        0 <= jj < j ==> (#[trigger] row@[jj])@ == gate_entry(
                            self@,
                            nq as nat,
                            i as nat,
                            jj as nat,
                        ),
                decreases size - j,
            {
                let e = self.entry_at(nq, i, j);
                row.push(e);
                j = j + 1;
            }
            rows.push(row);
            i = i + 1;
        }
        Ok(Matrix { entries: rows })
    }
}

} // verus!
