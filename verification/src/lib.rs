//! Exact state-vector simulation of small quantum circuits.
//!
//! A `Circuit` holds a qubit count and an ordered list of gate descriptors
//! over the closed vocabulary X, Y, Z, H and controlled-NOT.  A `Simulator`
//! owns a circuit and an amplitude vector of length 2^n; `run` expands each
//! descriptor to its full 2^n x 2^n operator with `Gate::get_matrix` and
//! left-multiplies it onto the vector, in submission order.
//!
//! Amplitudes are exact: every entry of the supported gates lies in the ring
//! of complex numbers (a + b*sqrt(2) + (c + d*sqrt(2))i) / sqrt(2)^k with
//! integer coefficients, so states are represented and compared without
//! rounding, and `State::print` derives the decimal rendering from integer
//! arithmetic alone.  The qubit-index convention is fixed once in `bits`:
//! qubit q is the bit of weight 2^q of the basis label.  The general
//! properties of the expansion engine - the 2x2 reduction over one qubit,
//! the tensor-product reading, unitarity, the permutation structure of
//! controlled-NOT, and self-inverse gates - are stated and proved in `laws`.

use vstd::prelude::*;

pub mod amp;
pub mod bits;
pub mod circuit;
pub mod gate;
pub mod laws;
pub mod render;
pub mod simulator;

verus! {

/// Number of distinct basis labels for `n` qubits: 2^n.
pub open spec fn p2(n: nat) -> nat
    decreases n,
{
    if n == 0 {
        1
    } else {
        2 * p2((n - 1) as nat)
    }
}

/// 2^n over the integers; agrees with `p2`.
pub open spec fn pow2_int(n: nat) -> int
    decreases n,
{
    if n == 0 {
        1
    } else {
        2 * pow2_int((n - 1) as nat)
    }
}

pub proof fn lemma_p2_pow2_int(n: nat)
    ensures
        p2(n) == pow2_int(n),
    decreases n,
{
    if n > 0 {
        lemma_p2_pow2_int((n - 1) as nat);
    }
}

pub proof fn lemma_pow2_int_pos(n: nat)
    ensures
        pow2_int(n) >= 1,
    decreases n,
{
    if n > 0 {
        lemma_pow2_int_pos((n - 1) as nat);
    }
}

pub proof fn lemma_p2_pos(n: nat)
    ensures
        p2(n) >= 1,
    decreases n,
{
    if n > 0 {
        lemma_p2_pos((n - 1) as nat);
    }
}

/// Powers of two compose: 2^(i+j) == 2^i * 2^j.
pub proof fn lemma_pow2_int_adds(i: nat, j: nat)
    ensures
        pow2_int(i + j) == pow2_int(i) * pow2_int(j),
    decreases j,
{
    if j == 0 {
        assert(pow2_int(i) * 1 == pow2_int(i)) by (nonlinear_arith);
    } else {
        lemma_pow2_int_adds(i, (j - 1) as nat);
        assert(pow2_int(i) * (2 * pow2_int((j - 1) as nat)) == 2 * (pow2_int(i) * pow2_int(
            (j - 1) as nat,
        ))) by (nonlinear_arith);
    }
}

pub proof fn lemma_pow2_int_le(i: nat, j: nat)
    requires
        i <= j,
    ensures
        pow2_int(i) <= pow2_int(j),
    decreases j,
{
    lemma_pow2_int_pos(i);
    if i < j {
        lemma_pow2_int_le(i, (j - 1) as nat);
        lemma_pow2_int_pos((j - 1) as nat);
    }
}

pub proof fn lemma_p2_le(i: nat, j: nat)
    requires
        i <= j,
    ensures
        p2(i) <= p2(j),
{
    lemma_p2_pow2_int(i);
    lemma_p2_pow2_int(j);
    lemma_pow2_int_le(i, j);
}

/// Concrete values of the powers of two the machine-width arguments need.
pub proof fn lemma_pow2_int_values()
    ensures
        pow2_int(31) == 0x8000_0000,
        pow2_int(60) == 0x1000_0000_0000_0000,
        pow2_int(63) == 0x8000_0000_0000_0000,
{
    assert(pow2_int(10) == 0x400) by {
        reveal_with_fuel(pow2_int, 11);
    };
    lemma_pow2_int_adds(10, 10);
    assert(pow2_int(20) == 0x10_0000);
    lemma_pow2_int_adds(20, 20);
    assert(pow2_int(40) == 0x100_0000_0000);
    lemma_pow2_int_adds(40, 20);
    assert(pow2_int(60) == 0x1000_0000_0000_0000);
    assert(pow2_int(1) == 2) by {
        reveal_with_fuel(pow2_int, 2);
    };
    lemma_pow2_int_adds(20, 10);
    assert(pow2_int(30) == 0x4000_0000);
    lemma_pow2_int_adds(30, 1);
    assert(pow2_int(31) == 0x8000_0000);
    assert(pow2_int(3) == 8) by {
        reveal_with_fuel(pow2_int, 4);
    };
    lemma_pow2_int_adds(60, 3);
}

/// 2^n as a machine integer; the side length of an expanded gate matrix.
/// The precondition is what the machine word forces: the count of basis
/// labels must be representable.
pub fn pow2_usize(n: usize) -> (r: usize)
    requires
        p2(n as nat) <= usize::MAX as nat,
    ensures
        r as nat == p2(n as nat),
        r >= 1,
{
    let mut r: usize = 1;
    let mut t: usize = 0;
    while t < n
        invariant
            t <= n,
            p2(n as nat) <= usize::MAX as nat,
            r as nat == p2(t as nat),
        decreases n - t,
    {
        proof {
            lemma_p2_le((t + 1) as nat, n as nat);
            assert(p2((t + 1) as nat) == 2 * p2(t as nat));
        }
        r = 2 * r;
        t = t + 1;
    }
    proof {
        lemma_p2_pos(n as nat);
    }
    r
}

} // verus!
