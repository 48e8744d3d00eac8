use vstd::prelude::*;
use crate::amp::{Amp, AmpModel, amp_wf, m_add, m_mul, m_one, m_zero};
use crate::circuit::Circuit;
use crate::gate::{
    Gate, GateView, Matrix, SimError, gate_entry, gate_valid, mat_m, matrix_wf,
};

verus! {

// The evolver: a `State` owns the amplitude vector, a `Simulator` owns a
// circuit and a state, and `run` folds the circuit's gates over the state in
// submission order, replacing the vector by (operator x vector) at each step.

/// The amplitude vector of a register: entry `i` is the amplitude of the
/// computational-basis state labelled `i`.
pub struct State {
    pub coefs: Vec<Amp>,
}

/// The mathematical reading of an amplitude vector.
pub open spec fn state_m(v: Seq<Amp>) -> Seq<AmpModel> {
    Seq::new(v.len(), |i: int| v[i]@)
}

/// Every amplitude of the vector is well formed.
pub open spec fn state_wf(v: Seq<AmpModel>) -> bool {
    forall|i: int| 0 <= i < v.len() ==> amp_wf(#[trigger] v[i])
}

/// The ground state of `n` qubits: amplitude 1 at label 0, 0 elsewhere.
pub open spec fn ground_m(n: nat) -> Seq<AmpModel> {
    Seq::new(crate::p2(n), |i: int| if i == 0 { m_one() } else { m_zero() })
}

/// The exact inner product of the first `m` positions of `row` and `v`,
/// folded left to right.
pub open spec fn dot_prefix(row: Seq<AmpModel>, v: Seq<AmpModel>, m: nat) -> AmpModel
    decreases m,
{
    if m == 0 {
        m_zero()
    } else {
        m_add(
            dot_prefix(row, v, (m - 1) as nat),
            m_mul(row[m - 1], v[m - 1]),
        )
    }
}

/// The exact inner product of a full row with the state vector.
pub open spec fn dot_m(row: Seq<AmpModel>, v: Seq<AmpModel>) -> AmpModel {
    dot_prefix(row, v, v.len())
}

/// Every intermediate value of the `dot_prefix` fold stays in the
/// representable range, so the executable fold reproduces it exactly.
pub open spec fn dot_fits(row: Seq<AmpModel>, v: Seq<AmpModel>, m: nat) -> bool
    decreases m,
{
    if m == 0 {
        true
    } else {
        &&& dot_fits(row, v, (m - 1) as nat)
        &&& amp_wf(m_mul(row[m - 1], v[m - 1]))
        &&& amp_wf(m_add(dot_prefix(row, v, (m - 1) as nat), m_mul(row[m - 1], v[m - 1])))
    }
}

/// The matrix-vector product: entry `i` of the new state is row `i` dot `v`.
pub open spec fn apply_m(mm: Seq<Seq<AmpModel>>, v: Seq<AmpModel>) -> Seq<AmpModel> {
    Seq::new(mm.len(), |i: int| dot_m(mm[i], v))
}

/// Every row's fold fits the representation.
pub open spec fn apply_fits(mm: Seq<Seq<AmpModel>>, v: Seq<AmpModel>) -> bool {
    forall|i: int| 0 <= i < mm.len() ==> dot_fits(#[trigger] mm[i], v, v.len())
}

/// The expansion of a gate as a mathematical matrix.
pub open spec fn gate_matrix_m(g: GateView, n: nat) -> Seq<Seq<AmpModel>> {
    Seq::new(
        crate::p2(n),
        |i: int| Seq::new(crate::p2(n), |j: int| gate_entry(g, n, i as nat, j as nat)),
    )
}

/// The views of a descriptor list.
pub open spec fn gates_m(gs: Seq<Gate>) -> Seq<GateView> {
    Seq::new(gs.len(), |i: int| gs[i]@)
}

/// What running a circuit over state `v` yields: the outcome (success or the
/// first failure, in gate order) together with the state at that point.  A
/// gate that is invalid against `n` stops the run with `InvalidDescriptor`;
/// a fold whose exact values leave the representable range stops it with
/// `CapacityExceeded`; otherwise the state is replaced by (operator x state)
/// and the rest of the gates run.
pub open spec fn run_m(n: nat, gates: Seq<GateView>, v: Seq<AmpModel>) -> (Result<
    (),
    SimError,
>, Seq<AmpModel>)
    decreases gates.len(),
{
    if gates.len() == 0 {
        (Ok(()), v)
    } else {
        let g = gates[0];
        if !gate_valid(g, n) {
            (Err(SimError::InvalidDescriptor), v)
        } else {
            let mm = gate_matrix_m(g, n);
            if !apply_fits(mm, v) {
                (Err(SimError::CapacityExceeded), v)
            } else {
                run_m(n, gates.drop_first(), apply_m(mm, v))
            }
        }
    }
}

/// A shorter prefix of the fold fits whenever a longer one does.
proof fn lemma_dot_fits_mono(row: Seq<AmpModel>, v: Seq<AmpModel>, m1: nat, m2: nat)
    requires
        m1 <= m2,
        dot_fits(row, v, m2),
    ensures
        dot_fits(row, v, m1),
    decreases m2,
{
    if m1 < m2 {
        lemma_dot_fits_mono(row, v, m1, (m2 - 1) as nat);
    }
}

/// One row of the product, executably: the left-to-right fold of
/// sums of products, with overflow surfaced instead of truncated.
fn dot_row(row: &Vec<Amp>, v: &Vec<Amp>) -> (r: Option<Amp>)
    requires
        row@.len() == v@.len(),
        state_wf(state_m(row@)),
        state_wf(state_m(v@)),
    ensures
        r is Some <==> dot_fits(state_m(row@), state_m(v@), v@.len()),
        r matches Some(a) ==> a@ == dot_m(state_m(row@), state_m(v@)) && amp_wf(a@),
{
    let ghost rm = state_m(row@);
    let ghost vm = state_m(v@);
    let mut acc = Amp::zero();
    let mut j: usize = 0;
    while j < v.len()
        invariant
            j <= v@.len(),
            row@.len() == v@.len(),
            rm == state_m(row@),
            vm == state_m(v@),
            state_wf(rm),
            state_wf(vm),
            acc@ == dot_prefix(rm, vm, j as nat),
            dot_fits(rm, vm, j as nat),
            amp_wf(acc@),
        decreases v@.len() - j,
    {
        proof {
            assert(rm[j as int] == row@[j as int]@);
            assert(vm[j as int] == v@[j as int]@);
            assert(amp_wf(rm[j as int]));
            assert(amp_wf(vm[j as int]));
        }
        let term = match row[j].checked_mul(&v[j]) {
            Some(t) => t,
            None => {
                proof {
                    if dot_fits(rm, vm, vm.len()) {
                        lemma_dot_fits_mono(rm, vm, (j + 1) as nat, vm.len());
                    }
                }
                return None;
            },
        };
        let next = match acc.checked_add(&term) {
            Some(s) => s,
            None => {
                proof {
                    if dot_fits(rm, vm, vm.len()) {
                        lemma_dot_fits_mono(rm, vm, (j + 1) as nat, vm.len());
                    }
                }
                return None;
            },
        };
        acc = next;
        j = j + 1;
    }
    Some(acc)
}

/// The full matrix-vector product; `None` exactly when some row's fold
/// leaves the representable range.
fn apply_matrix(mat: &Matrix, v: &Vec<Amp>, nq: usize) -> (r: Option<Vec<Amp>>)
    requires
        matrix_wf(*mat, nq as nat),
        v@.len() == crate::p2(nq as nat),
        state_wf(state_m(v@)),
        forall|ii: int, jj: int|
            0 <= ii < crate::p2(nq as nat) && 0 <= jj < crate::p2(nq as nat) ==> amp_wf(
                #[trigger] mat.entries@[ii]@[jj]@,
            ),
    ensures
        r is Some <==> apply_fits(mat_m(*mat), state_m(v@)),
        r matches Some(w) ==> state_m(w@) == apply_m(mat_m(*mat), state_m(v@)) && state_wf(
            state_m(w@),
        ) && w@.len() == v@.len(),
{
    let ghost mm = mat_m(*mat);
    let ghost vm = state_m(v@);
    let size = mat.entries.len();
    let mut out: Vec<Amp> = Vec::new();
    let mut i: usize = 0;
    while i < size
        invariant
            i <= size,
            size == mat.entries@.len(),
            matrix_wf(*mat, nq as nat),
            v@.len() == crate::p2(nq as nat),
            state_wf(state_m(v@)),
            forall|ii: int, jj: int|
                0 <= ii < crate::p2(nq as nat) && 0 <= jj < crate::p2(nq as nat) ==> amp_wf(
                    #[trigger] mat.entries@[ii]@[jj]@,
                ),
            mm == mat_m(*mat),
            vm == state_m(v@),
            out@.len() == i,
            forall|ii: int| 0 <= ii < i ==> dot_fits(#[trigger] mm[ii], vm, vm.len()),
            forall|ii: int|
                0 <= ii < i ==> (#[trigger] out@[ii])@ == dot_m(mm[ii], vm) && amp_wf(out@[ii]@),
        decreases size - i,
    {
        let row = &mat.entries[i];
        proof {
            assert(state_m(row@) == mm[i as int]);
            assert(state_wf(state_m(row@))) by {
                assert forall|jj: int| 0 <= jj < row@.len() implies amp_wf(
                    #[trigger] state_m(row@)[jj],
                ) by {
                    assert(state_m(row@)[jj] == mat.entries@[i as int]@[jj]@);
                };
            };
        }
        let a = match dot_row(row, v) {
            Some(a) => a,
            None => {
                return None;
            },
        };
        out.push(a);
        i = i + 1;
    }
    proof {
        assert(state_m(out@) =~= apply_m(mm, vm));
    }
    Some(out)
}

impl State {
    /// A fresh amplitude vector: with `Some(n)`, the ground state of `n`
    /// qubits (length 2^n, amplitude 1 at label 0); with `None`, an empty
    /// vector.
    pub fn new(n: Option<usize>) -> (r: State)
        requires
            n matches Some(nn) ==> crate::p2(nn as nat) <= usize::MAX as nat,
        ensures
            n is None ==> r.coefs@.len() == 0,
            n matches Some(nn) ==> state_m(r.coefs@) == ground_m(nn as nat),
            state_wf(state_m(r.coefs@)),
    {
        match n {
            None => State { coefs: Vec::new() },
            Some(nn) => {
                let size = crate::pow2_usize(nn);
                let mut coefs: Vec<Amp> = Vec::new();
                coefs.push(Amp::one());
                let mut i: usize = 1;
                while i < size
                    invariant
                        1 <= i <= size,
                        coefs@.len() == i,
                        coefs@[0]@ == m_one(),
                        forall|ii: int| 1 <= ii < i ==> (#[trigger] coefs@[ii])@ == m_zero(),
                    decreases size - i,
                {
                    coefs.push(Amp::zero());
                    i = i + 1;
                }
                proof {
                    assert(state_m(coefs@) =~= ground_m(nn as nat));
                }
                State { coefs }
            },
        }
    }
}

/// Simulates a quantum circuit: construct it over a circuit with
/// `Simulator::new`, then call `run`; the final amplitudes are in `state`.
pub struct Simulator {
    pub circ: Circuit,
    pub state: State,
}

/// Does `len` equal 2^q?  Decided by repeated halving, so no power of two
/// ever needs to be materialized in a machine word.
fn len_is_p2(len: usize, q: usize) -> (r: bool)
    ensures
        r <==> len as nat == crate::p2(q as nat),
{
    let mut l = len;
    let mut t: usize = 0;
    proof {
        assert(crate::p2(0) == 1);
        assert(len as nat * 1 == len as nat) by (nonlinear_arith);
    }
    while t < q
        invariant
            t <= q,
            len as nat == l as nat * crate::p2(t as nat),
        decreases q - t,
    {
        proof {
            crate::lemma_p2_pos(t as nat);
            crate::lemma_p2_pos((q - t) as nat);
            crate::bits::lemma_p2_adds(t as nat, (q - t) as nat);
        }
        if l % 2 == 1 {
            proof {
                // if len were 2^q then l * 2^t == 2^t * 2^(q-t), so l would
                // be the even number 2^(q-t); but l is odd
                let pt = crate::p2(t as nat) as int;
                let rest = crate::p2((q - t) as nat) as int;
                if len as nat == crate::p2(q as nat) {
                    assert(pt * (l as int) == pt * rest) by (nonlinear_arith)
                        requires
                            (l as int) * pt == crate::p2(q as nat) as int,
                            crate::p2(q as nat) as int == pt * rest,
                    ;
                    vstd::arithmetic::mul::lemma_mul_equality_converse(pt, l as int, rest);
                    assert(rest == 2 * (crate::p2((q - t - 1) as nat) as int));
                }
            }
            return false;
        }
        let ghost lold = l as nat;
        l = l / 2;
        proof {
            assert(l as nat * crate::p2((t + 1) as nat) == lold * crate::p2(t as nat)) by (
            nonlinear_arith)
                requires
                    lold == 2 * (l as nat),
                    crate::p2((t + 1) as nat) == 2 * crate::p2(t as nat),
            ;
        }
        t = t + 1;
    }
    proof {
        crate::lemma_p2_pos(q as nat);
        if l >= 2 {
            assert(l as nat * crate::p2(q as nat) >= 2 * crate::p2(q as nat)) by (nonlinear_arith)
                requires
                    l as nat >= 2,
                    crate::p2(q as nat) >= 1,
            ;
        }
        assert(1 as nat * crate::p2(q as nat) == crate::p2(q as nat)) by (nonlinear_arith);
        if l == 0 {
            assert(0 as nat * crate::p2(q as nat) == 0) by (nonlinear_arith);
        }
    }
    l == 1
}

impl Simulator {
    /// A simulator over `c`, with the state initialized to the ground state
    /// sized for `c`'s qubit count.  The precondition is what the machine
    /// word forces: the 2^n amplitudes must be countable in a `usize`.
    pub fn new(c: Circuit) -> (r: Simulator)
        requires
            crate::p2(c.qubits as nat) <= usize::MAX as nat,
        ensures
            r.circ == c,
            state_m(r.state.coefs@) == ground_m(c.qubits as nat),
    {
        let nq = c.qubits;
        Simulator { circ: c, state: State::new(Some(nq)) }
    }

    /// Apply every gate of the circuit to the state, in order.  Each gate's
    /// full operator is computed and left-multiplied onto the amplitude
    /// vector; the first failure stops the run with the state as it was
    /// before the failing gate, and an empty gate list leaves the ground
    /// state untouched.
    pub fn run(&mut self) -> (r: Result<(), SimError>)
        requires
            state_wf(state_m(old(self).state.coefs@)),
        ensures
            final(self).circ == old(self).circ,
            state_wf(state_m(final(self).state.coefs@)),
            ({
                let n = old(self).circ.qubits as nat;
                let init = state_m(old(self).state.coefs@);
                let outcome = run_m(n, gates_m(old(self).circ.gates@), init);
                if init.len() != crate::p2(n) {
                    r == Err::<(), SimError>(SimError::DimensionMismatch)
                        && final(self).state.coefs@ == old(self).state.coefs@
                } else {
                    r == outcome.0 && state_m(final(self).state.coefs@) == outcome.1
                }
            }),
    {
        let nq = self.circ.qubits;
        let ghost n = nq as nat;
        let ghost gv = gates_m(self.circ.gates@);
        let ghost init = state_m(self.state.coefs@);
        let ghost target = run_m(n, gv, init);
        if !len_is_p2(self.state.coefs.len(), nq) {
            return Err(SimError::DimensionMismatch);
        }
        proof {
            assert(gv.skip(0) =~= gv);
        }
        let count = self.circ.gates.len();
        let mut gi: usize = 0;
        while gi < count
            invariant
                gi <= count,
                count == self.circ.gates@.len(),
                nq == self.circ.qubits,
                n == nq as nat,
                self.circ == old(self).circ,
                gv == gates_m(self.circ.gates@),
                init == state_m(old(self).state.coefs@),
                init.len() == crate::p2(n),
                target == run_m(n, gv, init),
                self.state.coefs@.len() == crate::p2(n),
                state_wf(state_m(self.state.coefs@)),
                crate::p2(n) <= usize::MAX as nat,
                run_m(n, gv.skip(gi as int), state_m(self.state.coefs@)) == target,
            decreases count - gi,
        {
            let g = self.circ.gates[gi];
            let ghost cur = state_m(self.state.coefs@);
            proof {
                assert(gv.skip(gi as int)[0] == g@);
                assert(gv.skip(gi as int).len() > 0);
            }
            let mat = match g.get_matrix(nq) {
                Ok(m) => m,
                Err(e) => {
                    proof {
                        assert(!gate_valid(g@, n));
                        assert(run_m(n, gv.skip(gi as int), cur) == (
                            Err::<(), SimError>(SimError::InvalidDescriptor),
                            cur,
                        ));
                    }
                    return Err(e);
                },
            };
            proof {
                assert forall|ii: int, jj: int|
                    0 <= ii < crate::p2(n) && 0 <= jj < crate::p2(n) implies mat.entries@[ii]@[jj]@
                    == gate_entry(g@, n, ii as nat, jj as nat) by {
                    assert(crate::gate::matrix_entry(mat, ii, jj) == gate_entry(
                        g@,
                        n,
                        ii as nat,
                        jj as nat,
                    ));
                };
                assert(mat_m(mat) =~~= gate_matrix_m(g@, n));
                assert forall|ii: int, jj: int|
                    0 <= ii < crate::p2(n) && 0 <= jj < crate::p2(n) implies amp_wf(
                    #[trigger] mat.entries@[ii]@[jj]@,
                ) by {
                    crate::gate::lemma_gate_entry_wf(g@, n, ii as nat, jj as nat);
                    assert(mat.entries@[ii]@[jj]@ == crate::gate::matrix_entry(mat, ii, jj));
                };
            }
            let next = match apply_matrix(&mat, &self.state.coefs, nq) {
                Some(w) => w,
                None => {
                    proof {
                        assert(!apply_fits(gate_matrix_m(g@, n), cur));
                        assert(run_m(n, gv.skip(gi as int), cur) == (
                            Err::<(), SimError>(SimError::CapacityExceeded),
                            cur,
                        ));
                    }
                    return Err(SimError::CapacityExceeded);
                },
            };
            self.state.coefs = next;
            proof {
                assert(gv.skip(gi as int).drop_first() =~= gv.skip(gi as int + 1));
                assert(state_m(self.state.coefs@) == apply_m(gate_matrix_m(g@, n), cur));
                assert(run_m(n, gv.skip(gi as int + 1), state_m(self.state.coefs@)) == target);
            }
            gi = gi + 1;
        }
        proof {
            assert(gv.skip(count as int).len() == 0);
        }
        Ok(())
    }
}

} // verus!
