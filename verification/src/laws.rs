use vstd::prelude::*;
use crate::amp::{
    AmpModel, lemma_cmp_add, lemma_cmp_zero, lemma_lift_compose, lemma_lift_k,
    lemma_lift_linear, lemma_lift_zero, m_cmp, m_conj, m_is_zero, m_lift, m_mul, m_one, m_same,
    m_zero,
};
use crate::bits::{bit, eq_except, lemma_bit_high_zero, lemma_eq_except_form, lemma_set_bit,
    lemma_label_ext, set_bit};
use crate::gate::{GateKind, GateView, base_entry, cnot_on, gate_entry, gate_valid,
    is_single_qubit};
use crate::simulator::{apply_m, dot_m, dot_prefix};

verus! {

// The general properties of the expansion engine, each stated over the same
// spec functions that the executable functions' contracts use, and proved
// once for every qubit count and every valid descriptor.

/// Over a single qubit, the expansion of a single-qubit gate is exactly the
/// gate's fixed 2x2 matrix.
pub proof fn lemma_expand_one_qubit(g: GateView, i: nat, j: nat)
    requires
        gate_valid(g, 1),
        g.control is None,
        i < 2,
        j < 2,
    ensures
        gate_entry(g, 1, i, j) == base_entry(g.kind, i, j),
{
    assert(crate::p2(0) == 1);
    assert(crate::p2(1) == 2);
    assert(g.target == 0);
    assert(bit(i, 0) == i) by {
        assert(i / 1 == i) by (nonlinear_arith);
        vstd::arithmetic::div_mod::lemma_small_mod(i, 2);
    };
    assert(bit(j, 0) == j) by {
        assert(j / 1 == j) by (nonlinear_arith);
        vstd::arithmetic::div_mod::lemma_small_mod(j, 2);
    };
    assert(eq_except(i, j, 0)) by {
        assert forall|q: nat| q != 0 implies bit(i, q) == bit(j, q) by {
            lemma_bit_high_zero(i, 1, q);
            lemma_bit_high_zero(j, 1, q);
        };
    };
}

/// Where ControlledNot sends a basis label: the target bit flips when the
/// control bit is set, and nothing else moves.
pub open spec fn cnot_image(c: nat, t: nat, i: nat) -> nat {
    if bit(i, c) == 1 {
        set_bit(i, t, (1 - bit(i, t)) as nat)
    } else {
        i
    }
}

/// The ControlledNot expansion is a permutation matrix: row `i` holds a
/// single 1, in the column of the image label, and by the involution the
/// same holds of every column.  `cnot_image` is its own inverse.
pub proof fn lemma_cnot_permutation(c: nat, t: nat, n: nat, i: nat)
    requires
        c < n,
        t < n,
        c != t,
        i < crate::p2(n),
    ensures
        cnot_image(c, t, i) < crate::p2(n),
        cnot_image(c, t, cnot_image(c, t, i)) == i,
        forall|j: nat| j < crate::p2(n) ==> (cnot_on(c, t, i, j) <==> j == cnot_image(c, t, i)),
{
    crate::lemma_p2_pos(t);
    crate::lemma_p2_pos(c);
    vstd::arithmetic::div_mod::lemma_mod_bound((i / crate::p2(t)) as int, 2);
    vstd::arithmetic::div_mod::lemma_mod_bound((i / crate::p2(c)) as int, 2);
    let bt = bit(i, t);
    let img = cnot_image(c, t, i);
    if bit(i, c) == 1 {
        lemma_set_bit(i, t, (1 - bt) as nat, n);
        assert(img < crate::p2(n));
        assert(bit(img, c) == 1);
        assert(bit(img, t) == 1 - bt);
        // the image of the image flips the target bit back
        vstd::arithmetic::div_mod::lemma_mod_bound((img / crate::p2(t)) as int, 2);
        lemma_set_bit(img, t, bt, n);
        lemma_label_ext(cnot_image(c, t, img), i, n);
    }
    assert forall|j: nat| j < crate::p2(n) implies (cnot_on(c, t, i, j) <==> j == cnot_image(
        c,
        t,
        i,
    )) by {
        vstd::arithmetic::div_mod::lemma_mod_bound((j / crate::p2(t)) as int, 2);
        if cnot_on(c, t, i, j) {
            if bit(i, c) == 0 {
                assert(j == img);
            } else {
                // control set in both: labels agree off the target, so j is
                // i with the target bit replaced by j's, which differs
                assert(eq_except(i, j, t)) by {
                    assert(bit(i, c) == bit(j, c));
                };
                lemma_eq_except_form(i, j, t, n);
                assert(j == set_bit(i, t, bit(j, t)));
                assert(bit(j, t) == 1 - bt);
            }
        }
        if j == img {
            if bit(i, c) == 0 {
                assert(cnot_on(c, t, i, j));
            } else {
                lemma_set_bit(i, t, (1 - bt) as nat, n);
                assert(bit(j, c) == 1 && bit(j, t) != bit(i, t));
                assert(cnot_on(c, t, i, j));
            }
        }
    };
}

/// The ControlledNot expansion, entrywise: every row and every column holds
/// exactly one 1, in the position that `cnot_image` names, and 0 everywhere
/// else: the expansion is a permutation matrix.
pub proof fn lemma_cnot_matrix_is_permutation(g: GateView, n: nat, c: nat, i: nat)
    requires
        gate_valid(g, n),
        g.control == Some(c),
        i < crate::p2(n),
    ensures
        forall|j: nat|
            j < crate::p2(n) ==> gate_entry(g, n, i, j) == if j == cnot_image(c, g.target, i) {
                crate::amp::m_one()
            } else {
                m_zero()
            },
        forall|j: nat|
            j < crate::p2(n) ==> gate_entry(g, n, j, i) == if j == cnot_image(c, g.target, i) {
                crate::amp::m_one()
            } else {
                m_zero()
            },
{
    let t = g.target;
    lemma_cnot_permutation(c, t, n, i);
    // the predicate is symmetric in its two labels, so the column statement
    // follows from the row statement
    assert forall|j: nat| j < crate::p2(n) implies (cnot_on(c, t, j, i) <==> cnot_on(
        c,
        t,
        i,
        j,
    )) by {
        assert(crate::bits::eq_except2(j, i, c, t) <==> crate::bits::eq_except2(i, j, c, t));
    };
}

/// The comparison form of a `dot_prefix` fold whose terms all vanish except
/// at up to two known positions `l0 < l1` is the coefficientwise sum of those
/// two terms' comparison forms.
proof fn lemma_dot_cmp_two(row: Seq<AmpModel>, v: Seq<AmpModel>, l0: int, l1: int, m: nat)
    requires
        0 <= l0 < l1,
        forall|l: int|
            0 <= l < m && l != l0 && l != l1 ==> m_is_zero(#[trigger] m_mul(row[l], v[l])),
        forall|l: int| 0 <= l < m ==> (#[trigger] m_mul(row[l], v[l])).k <= 120,
    ensures
        dot_prefix(row, v, m).k <= 120,
        m_cmp(dot_prefix(row, v, m)).a == (if l0 < m {
            m_cmp(m_mul(row[l0], v[l0])).a
        } else {
            0
        }) + (if l1 < m {
            m_cmp(m_mul(row[l1], v[l1])).a
        } else {
            0
        }),
        m_cmp(dot_prefix(row, v, m)).b == (if l0 < m {
            m_cmp(m_mul(row[l0], v[l0])).b
        } else {
            0
        }) + (if l1 < m {
            m_cmp(m_mul(row[l1], v[l1])).b
        } else {
            0
        }),
        m_cmp(dot_prefix(row, v, m)).c == (if l0 < m {
            m_cmp(m_mul(row[l0], v[l0])).c
        } else {
            0
        }) + (if l1 < m {
            m_cmp(m_mul(row[l1], v[l1])).c
        } else {
            0
        }),
        m_cmp(dot_prefix(row, v, m)).d == (if l0 < m {
            m_cmp(m_mul(row[l0], v[l0])).d
        } else {
            0
        }) + (if l1 < m {
            m_cmp(m_mul(row[l1], v[l1])).d
        } else {
            0
        }),
    decreases m,
{
    if m == 0 {
        lemma_cmp_zero(m_zero());
    } else {
        lemma_dot_cmp_two(row, v, l0, l1, (m - 1) as nat);
        let prev = dot_prefix(row, v, (m - 1) as nat);
        let term = m_mul(row[m - 1], v[m - 1]);
        lemma_cmp_add(prev, term);
        if m - 1 != l0 && m - 1 != l1 {
            lemma_cmp_zero(term);
        }
    }
}

/// The two-step lift in closed form, kept in a lemma of its own so that the
/// recursive definition need not unfold in larger contexts.
proof fn lemma_lift_two(e: AmpModel)
    ensures
        m_lift(e, 0) == e,
        m_lift(e, 2) == (AmpModel { a: 2 * e.a, b: 2 * e.b, c: 2 * e.c, d: 2 * e.d, k: e.k + 2 }),
{
    assert(m_lift(e, 1) == crate::amp::m_step(m_lift(e, 0)));
    assert(m_lift(e, 2) == crate::amp::m_step(m_lift(e, 1)));
}

/// The rows of every single-qubit base matrix are orthonormal: summing
/// entry x conjugate-entry over a row pair gives 1 on the diagonal and 0 off
/// it, as exact values.
/// Row orthonormality of the Pauli-X 2x2 matrix, by direct computation
/// over the four row-pair cases.
proof fn lemma_orthonormal_x(bi: nat, bj: nat)
    requires
        bi < 2,
        bj < 2,
    ensures
        ({
            let t0 = m_mul(base_entry(GateKind::PauliX, bi, 0), m_conj(base_entry(GateKind::PauliX, bj, 0)));
            let t1 = m_mul(base_entry(GateKind::PauliX, bi, 1), m_conj(base_entry(GateKind::PauliX, bj, 1)));
            let e = if bi == bj {
                m_one()
            } else {
                m_zero()
            };
            &&& t0.k <= 120
            &&& t1.k <= 120
            &&& m_cmp(t0).a + m_cmp(t1).a == m_cmp(e).a
            &&& m_cmp(t0).b + m_cmp(t1).b == m_cmp(e).b
            &&& m_cmp(t0).c + m_cmp(t1).c == m_cmp(e).c
            &&& m_cmp(t0).d + m_cmp(t1).d == m_cmp(e).d
        }),
{
    let t0 = m_mul(base_entry(GateKind::PauliX, bi, 0), m_conj(base_entry(GateKind::PauliX, bj, 0)));
    let t1 = m_mul(base_entry(GateKind::PauliX, bi, 1), m_conj(base_entry(GateKind::PauliX, bj, 1)));
    let e = if bi == bj {
        m_one()
    } else {
        m_zero()
    };
    let kk = t0.k;
    let z = AmpModel { a: t0.a + t1.a, b: t0.b + t1.b, c: t0.c + t1.c, d: t0.d + t1.d, k: kk };
    lemma_lift_two(m_one());
    lemma_lift_two(m_zero());
    if bi == 0 {
        if bj == 0 {
            assert(base_entry(GateKind::PauliX, bi, 0) == AmpModel { a: 0, b: 0, c: 0, d: 0, k: 0 });
            assert(base_entry(GateKind::PauliX, bi, 1) == AmpModel { a: 1, b: 0, c: 0, d: 0, k: 0 });
            assert(m_conj(base_entry(GateKind::PauliX, bj, 0)) == AmpModel { a: 0, b: 0, c: 0, d: 0, k: 0 });
            assert(m_conj(base_entry(GateKind::PauliX, bj, 1)) == AmpModel { a: 1, b: 0, c: 0, d: 0, k: 0 });
            assert(t0.a == 0 && t0.b == 0 && t0.c == 0 && t0.d == 0) by (nonlinear_arith)
                requires
                    t0.a == 0 * 0 + 2 * 0 * 0 - 0 * 0 - 2 * 0 * 0,
                    t0.b == 0 * 0 + 0 * 0 - 0 * 0 - 0 * 0,
                    t0.c == 0 * 0 + 0 * 0 + 2 * 0 * 0 + 2 * 0 * 0,
                    t0.d == 0 * 0 + 0 * 0 + 0 * 0 + 0 * 0,
            ;
            assert(t0 == AmpModel { a: 0, b: 0, c: 0, d: 0, k: 0 });
            assert(t1.a == 1 && t1.b == 0 && t1.c == 0 && t1.d == 0) by (nonlinear_arith)
                requires
                    t1.a == 1 * 1 + 2 * 0 * 0 - 0 * 0 - 2 * 0 * 0,
                    t1.b == 1 * 0 + 0 * 1 - 0 * 0 - 0 * 0,
                    t1.c == 1 * 0 + 0 * 1 + 2 * 0 * 0 + 2 * 0 * 0,
                    t1.d == 1 * 0 + 0 * 1 + 0 * 0 + 0 * 0,
            ;
            assert(t1 == AmpModel { a: 1, b: 0, c: 0, d: 0, k: 0 });
            assert(z == AmpModel { a: 1, b: 0, c: 0, d: 0, k: 0 });
            assert(z == m_lift(e, (kk - e.k) as nat));
        } else {
            assert(base_entry(GateKind::PauliX, bi, 0) == AmpModel { a: 0, b: 0, c: 0, d: 0, k: 0 });
            assert(base_entry(GateKind::PauliX, bi, 1) == AmpModel { a: 1, b: 0, c: 0, d: 0, k: 0 });
            assert(m_conj(base_entry(GateKind::PauliX, bj, 0)) == AmpModel { a: 1, b: 0, c: 0, d: 0, k: 0 });
            assert(m_conj(base_entry(GateKind::PauliX, bj, 1)) == AmpModel { a: 0, b: 0, c: 0, d: 0, k: 0 });
            assert(t0.a == 0 && t0.b == 0 && t0.c == 0 && t0.d == 0) by (nonlinear_arith)
                requires
                    t0.a == 0 * 1 + 2 * 0 * 0 - 0 * 0 - 2 * 0 * 0,
                    t0.b == 0 * 0 + 0 * 1 - 0 * 0 - 0 * 0,
                    t0.c == 0 * 0 + 0 * 1 + 2 * 0 * 0 + 2 * 0 * 0,
                    t0.d == 0 * 0 + 0 * 1 + 0 * 0 + 0 * 0,
            ;
            assert(t0 == AmpModel { a: 0, b: 0, c: 0, d: 0, k: 0 });
            assert(t1.a == 0 && t1.b == 0 && t1.c == 0 && t1.d == 0) by (nonlinear_arith)
                requires
                    t1.a == 1 * 0 + 2 * 0 * 0 - 0 * 0 - 2 * 0 * 0,
                    t1.b == 1 * 0 + 0 * 0 - 0 * 0 - 0 * 0,
                    t1.c == 1 * 0 + 0 * 0 + 2 * 0 * 0 + 2 * 0 * 0,
                    t1.d == 1 * 0 + 0 * 0 + 0 * 0 + 0 * 0,
            ;
            assert(t1 == AmpModel { a: 0, b: 0, c: 0, d: 0, k: 0 });
            assert(z == AmpModel { a: 0, b: 0, c: 0, d: 0, k: 0 });
            assert(z == m_lift(e, (kk - e.k) as nat));
        }
    } else {
        if bj == 0 {
            assert(base_entry(GateKind::PauliX, bi, 0) == AmpModel { a: 1, b: 0, c: 0, d: 0, k: 0 });
            assert(base_entry(GateKind::PauliX, bi, 1) == AmpModel { a: 0, b: 0, c: 0, d: 0, k: 0 });
            assert(m_conj(base_entry(GateKind::PauliX, bj, 0)) == AmpModel { a: 0, b: 0, c: 0, d: 0, k: 0 });
            assert(m_conj(base_entry(GateKind::PauliX, bj, 1)) == AmpModel { a: 1, b: 0, c: 0, d: 0, k: 0 });
            assert(t0.a == 0 && t0.b == 0 && t0.c == 0 && t0.d == 0) by (nonlinear_arith)
                requires
                    t0.a == 1 * 0 + 2 * 0 * 0 - 0 * 0 - 2 * 0 * 0,
                    t0.b == 1 * 0 + 0 * 0 - 0 * 0 - 0 * 0,
                    t0.c == 1 * 0 + 0 * 0 + 2 * 0 * 0 + 2 * 0 * 0,
                    t0.d == 1 * 0 + 0 * 0 + 0 * 0 + 0 * 0,
            ;
            assert(t0 == AmpModel { a: 0, b: 0, c: 0, d: 0, k: 0 });
            assert(t1.a == 0 && t1.b == 0 && t1.c == 0 && t1.d == 0) by (nonlinear_arith)
                requires
                    t1.a == 0 * 1 + 2 * 0 * 0 - 0 * 0 - 2 * 0 * 0,
                    t1.b == 0 * 0 + 0 * 1 - 0 * 0 - 0 * 0,
                    t1.c == 0 * 0 + 0 * 1 + 2 * 0 * 0 + 2 * 0 * 0,
                    t1.d == 0 * 0 + 0 * 1 + 0 * 0 + 0 * 0,
            ;
            assert(t1 == AmpModel { a: 0, b: 0, c: 0, d: 0, k: 0 });
            assert(z == AmpModel { a: 0, b: 0, c: 0, d: 0, k: 0 });
            assert(z == m_lift(e, (kk - e.k) as nat));
        } else {
            assert(base_entry(GateKind::PauliX, bi, 0) == AmpModel { a: 1, b: 0, c: 0, d: 0, k: 0 });
            assert(base_entry(GateKind::PauliX, bi, 1) == AmpModel { a: 0, b: 0, c: 0, d: 0, k: 0 });
            assert(m_conj(base_entry(GateKind::PauliX, bj, 0)) == AmpModel { a: 1, b: 0, c: 0, d: 0, k: 0 });
            assert(m_conj(base_entry(GateKind::PauliX, bj, 1)) == AmpModel { a: 0, b: 0, c: 0, d: 0, k: 0 });
            assert(t0.a == 1 && t0.b == 0 && t0.c == 0 && t0.d == 0) by (nonlinear_arith)
                requires
                    t0.a == 1 * 1 + 2 * 0 * 0 - 0 * 0 - 2 * 0 * 0,
                    t0.b == 1 * 0 + 0 * 1 - 0 * 0 - 0 * 0,
                    t0.c == 1 * 0 + 0 * 1 + 2 * 0 * 0 + 2 * 0 * 0,
                    t0.d == 1 * 0 + 0 * 1 + 0 * 0 + 0 * 0,
            ;
            assert(t0 == AmpModel { a: 1, b: 0, c: 0, d: 0, k: 0 });
            assert(t1.a == 0 && t1.b == 0 && t1.c == 0 && t1.d == 0) by (nonlinear_arith)
                requires
                    t1.a == 0 * 0 + 2 * 0 * 0 - 0 * 0 - 2 * 0 * 0,
                    t1.b == 0 * 0 + 0 * 0 - 0 * 0 - 0 * 0,
                    t1.c == 0 * 0 + 0 * 0 + 2 * 0 * 0 + 2 * 0 * 0,
                    t1.d == 0 * 0 + 0 * 0 + 0 * 0 + 0 * 0,
            ;
            assert(t1 == AmpModel { a: 0, b: 0, c: 0, d: 0, k: 0 });
            assert(z == AmpModel { a: 1, b: 0, c: 0, d: 0, k: 0 });
            assert(z == m_lift(e, (kk - e.k) as nat));
        }
    }
    assert(t1.k == kk);
    lemma_lift_linear(t0, t1, z, (128 - kk) as nat);
    lemma_lift_compose(e, (kk - e.k) as nat, (128 - kk) as nat);
}

/// Row orthonormality of the Pauli-Y 2x2 matrix, by direct computation
/// over the four row-pair cases.
proof fn lemma_orthonormal_y(bi: nat, bj: nat)
    requires
        bi < 2,
        bj < 2,
    ensures
        ({
            let t0 = m_mul(base_entry(GateKind::PauliY, bi, 0), m_conj(base_entry(GateKind::PauliY, bj, 0)));
            let t1 = m_mul(base_entry(GateKind::PauliY, bi, 1), m_conj(base_entry(GateKind::PauliY, bj, 1)));
            let e = if bi == bj {
                m_one()
            } else {
                m_zero()
            };
            &&& t0.k <= 120
            &&& t1.k <= 120
            &&& m_cmp(t0).a + m_cmp(t1).a == m_cmp(e).a
            &&& m_cmp(t0).b + m_cmp(t1).b == m_cmp(e).b
            &&& m_cmp(t0).c + m_cmp(t1).c == m_cmp(e).c
            &&& m_cmp(t0).d + m_cmp(t1).d == m_cmp(e).d
        }),
{
    let t0 = m_mul(base_entry(GateKind::PauliY, bi, 0), m_conj(base_entry(GateKind::PauliY, bj, 0)));
    let t1 = m_mul(base_entry(GateKind::PauliY, bi, 1), m_conj(base_entry(GateKind::PauliY, bj, 1)));
    let e = if bi == bj {
        m_one()
    } else {
        m_zero()
    };
    let kk = t0.k;
    let z = AmpModel { a: t0.a + t1.a, b: t0.b + t1.b, c: t0.c + t1.c, d: t0.d + t1.d, k: kk };
    lemma_lift_two(m_one());
    lemma_lift_two(m_zero());
    if bi == 0 {
        if bj == 0 {
            assert(base_entry(GateKind::PauliY, bi, 0) == AmpModel { a: 0, b: 0, c: 0, d: 0, k: 0 });
            assert(base_entry(GateKind::PauliY, bi, 1) == AmpModel { a: 0, b: 0, c: -1, d: 0, k: 0 });
            assert(m_conj(base_entry(GateKind::PauliY, bj, 0)) == AmpModel { a: 0, b: 0, c: 0, d: 0, k: 0 });
            assert(m_conj(base_entry(GateKind::PauliY, bj, 1)) == AmpModel { a: 0, b: 0, c: 1, d: 0, k: 0 });
            assert(t0.a == 0 && t0.b == 0 && t0.c == 0 && t0.d == 0) by (nonlinear_arith)
                requires
                    t0.a == 0 * 0 + 2 * 0 * 0 - 0 * 0 - 2 * 0 * 0,
                    t0.b == 0 * 0 + 0 * 0 - 0 * 0 - 0 * 0,
                    t0.c == 0 * 0 + 0 * 0 + 2 * 0 * 0 + 2 * 0 * 0,
                    t0.d == 0 * 0 + 0 * 0 + 0 * 0 + 0 * 0,
            ;
            assert(t0 == AmpModel { a: 0, b: 0, c: 0, d: 0, k: 0 });
            assert(t1.a == 1 && t1.b == 0 && t1.c == 0 && t1.d == 0) by (nonlinear_arith)
                requires
                    t1.a == 0 * 0 + 2 * 0 * 0 - (-1) * 1 - 2 * 0 * 0,
                    t1.b == 0 * 0 + 0 * 0 - (-1) * 0 - 0 * 1,
                    t1.c == 0 * 1 + (-1) * 0 + 2 * 0 * 0 + 2 * 0 * 0,
                    t1.d == 0 * 0 + 0 * 0 + 0 * 1 + (-1) * 0,
            ;
            assert(t1 == AmpModel { a: 1, b: 0, c: 0, d: 0, k: 0 });
            assert(z == AmpModel { a: 1, b: 0, c: 0, d: 0, k: 0 });
            assert(z == m_lift(e, (kk - e.k) as nat));
        } else {
            assert(base_entry(GateKind::PauliY, bi, 0) == AmpModel { a: 0, b: 0, c: 0, d: 0, k: 0 });
            assert(base_entry(GateKind::PauliY, bi, 1) == AmpModel { a: 0, b: 0, c: -1, d: 0, k: 0 });
            assert(m_conj(base_entry(GateKind::PauliY, bj, 0)) == AmpModel { a: 0, b: 0, c: -1, d: 0, k: 0 });
            assert(m_conj(base_entry(GateKind::PauliY, bj, 1)) == AmpModel { a: 0, b: 0, c: 0, d: 0, k: 0 });
            assert(t0.a == 0 && t0.b == 0 && t0.c == 0 && t0.d == 0) by (nonlinear_arith)
                requires
                    t0.a == 0 * 0 + 2 * 0 * 0 - 0 * (-1) - 2 * 0 * 0,
                    t0.b == 0 * 0 + 0 * 0 - 0 * 0 - 0 * (-1),
                    t0.c == 0 * (-1) + 0 * 0 + 2 * 0 * 0 + 2 * 0 * 0,
                    t0.d == 0 * 0 + 0 * 0 + 0 * (-1) + 0 * 0,
            ;
            assert(t0 == AmpModel { a: 0, b: 0, c: 0, d: 0, k: 0 });
            assert(t1.a == 0 && t1.b == 0 && t1.c == 0 && t1.d == 0) by (nonlinear_arith)
                requires
                    t1.a == 0 * 0 + 2 * 0 * 0 - (-1) * 0 - 2 * 0 * 0,
                    t1.b == 0 * 0 + 0 * 0 - (-1) * 0 - 0 * 0,
                    t1.c == 0 * 0 + (-1) * 0 + 2 * 0 * 0 + 2 * 0 * 0,
                    t1.d == 0 * 0 + 0 * 0 + 0 * 0 + (-1) * 0,
            ;
            assert(t1 == AmpModel { a: 0, b: 0, c: 0, d: 0, k: 0 });
            assert(z == AmpModel { a: 0, b: 0, c: 0, d: 0, k: 0 });
            assert(z == m_lift(e, (kk - e.k) as nat));
        }
    } else {
        if bj == 0 {
            assert(base_entry(GateKind::PauliY, bi, 0) == AmpModel { a: 0, b: 0, c: 1, d: 0, k: 0 });
            assert(base_entry(GateKind::PauliY, bi, 1) == AmpModel { a: 0, b: 0, c: 0, d: 0, k: 0 });
            assert(m_conj(base_entry(GateKind::PauliY, bj, 0)) == AmpModel { a: 0, b: 0, c: 0, d: 0, k: 0 });
            assert(m_conj(base_entry(GateKind::PauliY, bj, 1)) == AmpModel { a: 0, b: 0, c: 1, d: 0, k: 0 });
            assert(t0.a == 0 && t0.b == 0 && t0.c == 0 && t0.d == 0) by (nonlinear_arith)
                requires
                    t0.a == 0 * 0 + 2 * 0 * 0 - 1 * 0 - 2 * 0 * 0,
                    t0.b == 0 * 0 + 0 * 0 - 1 * 0 - 0 * 0,
                    t0.c == 0 * 0 + 1 * 0 + 2 * 0 * 0 + 2 * 0 * 0,
                    t0.d == 0 * 0 + 0 * 0 + 0 * 0 + 1 * 0,
            ;
            assert(t0 == AmpModel { a: 0, b: 0, c: 0, d: 0, k: 0 });
            assert(t1.a == 0 && t1.b == 0 && t1.c == 0 && t1.d == 0) by (nonlinear_arith)
                requires
                    t1.a == 0 * 0 + 2 * 0 * 0 - 0 * 1 - 2 * 0 * 0,
                    t1.b == 0 * 0 + 0 * 0 - 0 * 0 - 0 * 1,
                    t1.c == 0 * 1 + 0 * 0 + 2 * 0 * 0 + 2 * 0 * 0,
                    t1.d == 0 * 0 + 0 * 0 + 0 * 1 + 0 * 0,
            ;
            assert(t1 == AmpModel { a: 0, b: 0, c: 0, d: 0, k: 0 });
            assert(z == AmpModel { a: 0, b: 0, c: 0, d: 0, k: 0 });
            assert(z == m_lift(e, (kk - e.k) as nat));
        } else {
            assert(base_entry(GateKind::PauliY, bi, 0) == AmpModel { a: 0, b: 0, c: 1, d: 0, k: 0 });
            assert(base_entry(GateKind::PauliY, bi, 1) == AmpModel { a: 0, b: 0, c: 0, d: 0, k: 0 });
            assert(m_conj(base_entry(GateKind::PauliY, bj, 0)) == AmpModel { a: 0, b: 0, c: -1, d: 0, k: 0 });
            assert(m_conj(base_entry(GateKind::PauliY, bj, 1)) == AmpModel { a: 0, b: 0, c: 0, d: 0, k: 0 });
            assert(t0.a == 1 && t0.b == 0 && t0.c == 0 && t0.d == 0) by (nonlinear_arith)
                requires
                    t0.a == 0 * 0 + 2 * 0 * 0 - 1 * (-1) - 2 * 0 * 0,
                    t0.b == 0 * 0 + 0 * 0 - 1 * 0 - 0 * (-1),
                    t0.c == 0 * (-1) + 1 * 0 + 2 * 0 * 0 + 2 * 0 * 0,
                    t0.d == 0 * 0 + 0 * 0 + 0 * (-1) + 1 * 0,
            ;
            assert(t0 == AmpModel { a: 1, b: 0, c: 0, d: 0, k: 0 });
            assert(t1.a == 0 && t1.b == 0 && t1.c == 0 && t1.d == 0) by (nonlinear_arith)
                requires
                    t1.a == 0 * 0 + 2 * 0 * 0 - 0 * 0 - 2 * 0 * 0,
                    t1.b == 0 * 0 + 0 * 0 - 0 * 0 - 0 * 0,
                    t1.c == 0 * 0 + 0 * 0 + 2 * 0 * 0 + 2 * 0 * 0,
                    t1.d == 0 * 0 + 0 * 0 + 0 * 0 + 0 * 0,
            ;
            assert(t1 == AmpModel { a: 0, b: 0, c: 0, d: 0, k: 0 });
            assert(z == AmpModel { a: 1, b: 0, c: 0, d: 0, k: 0 });
            assert(z == m_lift(e, (kk - e.k) as nat));
        }
    }
    assert(t1.k == kk);
    lemma_lift_linear(t0, t1, z, (128 - kk) as nat);
    lemma_lift_compose(e, (kk - e.k) as nat, (128 - kk) as nat);
}

/// Row orthonormality of the Pauli-Z 2x2 matrix, by direct computation
/// over the four row-pair cases.
proof fn lemma_orthonormal_z(bi: nat, bj: nat)
    requires
        bi < 2,
        bj < 2,
    ensures
        ({
            let t0 = m_mul(base_entry(GateKind::PauliZ, bi, 0), m_conj(base_entry(GateKind::PauliZ, bj, 0)));
            let t1 = m_mul(base_entry(GateKind::PauliZ, bi, 1), m_conj(base_entry(GateKind::PauliZ, bj, 1)));
            let e = if bi == bj {
                m_one()
            } else {
                m_zero()
            };
            &&& t0.k <= 120
            &&& t1.k <= 120
            &&& m_cmp(t0).a + m_cmp(t1).a == m_cmp(e).a
            &&& m_cmp(t0).b + m_cmp(t1).b == m_cmp(e).b
            &&& m_cmp(t0).c + m_cmp(t1).c == m_cmp(e).c
            &&& m_cmp(t0).d + m_cmp(t1).d == m_cmp(e).d
        }),
{
    let t0 = m_mul(base_entry(GateKind::PauliZ, bi, 0), m_conj(base_entry(GateKind::PauliZ, bj, 0)));
    let t1 = m_mul(base_entry(GateKind::PauliZ, bi, 1), m_conj(base_entry(GateKind::PauliZ, bj, 1)));
    let e = if bi == bj {
        m_one()
    } else {
        m_zero()
    };
    let kk = t0.k;
    let z = AmpModel { a: t0.a + t1.a, b: t0.b + t1.b, c: t0.c + t1.c, d: t0.d + t1.d, k: kk };
    lemma_lift_two(m_one());
    lemma_lift_two(m_zero());
    if bi == 0 {
        if bj == 0 {
            assert(base_entry(GateKind::PauliZ, bi, 0) == AmpModel { a: 1, b: 0, c: 0, d: 0, k: 0 });
            assert(base_entry(GateKind::PauliZ, bi, 1) == AmpModel { a: 0, b: 0, c: 0, d: 0, k: 0 });
            assert(m_conj(base_entry(GateKind::PauliZ, bj, 0)) == AmpModel { a: 1, b: 0, c: 0, d: 0, k: 0 });
            assert(m_conj(base_entry(GateKind::PauliZ, bj, 1)) == AmpModel { a: 0, b: 0, c: 0, d: 0, k: 0 });
            assert(t0.a == 1 && t0.b == 0 && t0.c == 0 && t0.d == 0) by (nonlinear_arith)
                requires
                    t0.a == 1 * 1 + 2 * 0 * 0 - 0 * 0 - 2 * 0 * 0,
                    t0.b == 1 * 0 + 0 * 1 - 0 * 0 - 0 * 0,
                    t0.c == 1 * 0 + 0 * 1 + 2 * 0 * 0 + 2 * 0 * 0,
                    t0.d == 1 * 0 + 0 * 1 + 0 * 0 + 0 * 0,
            ;
            assert(t0 == AmpModel { a: 1, b: 0, c: 0, d: 0, k: 0 });
            assert(t1.a == 0 && t1.b == 0 && t1.c == 0 && t1.d == 0) by (nonlinear_arith)
                requires
                    t1.a == 0 * 0 + 2 * 0 * 0 - 0 * 0 - 2 * 0 * 0,
                    t1.b == 0 * 0 + 0 * 0 - 0 * 0 - 0 * 0,
                    t1.c == 0 * 0 + 0 * 0 + 2 * 0 * 0 + 2 * 0 * 0,
                    t1.d == 0 * 0 + 0 * 0 + 0 * 0 + 0 * 0,
            ;
            assert(t1 == AmpModel { a: 0, b: 0, c: 0, d: 0, k: 0 });
            assert(z == AmpModel { a: 1, b: 0, c: 0, d: 0, k: 0 });
            assert(z == m_lift(e, (kk - e.k) as nat));
        } else {
            assert(base_entry(GateKind::PauliZ, bi, 0) == AmpModel { a: 1, b: 0, c: 0, d: 0, k: 0 });
            assert(base_entry(GateKind::PauliZ, bi, 1) == AmpModel { a: 0, b: 0, c: 0, d: 0, k: 0 });
            assert(m_conj(base_entry(GateKind::PauliZ, bj, 0)) == AmpModel { a: 0, b: 0, c: 0, d: 0, k: 0 });
            assert(m_conj(base_entry(GateKind::PauliZ, bj, 1)) == AmpModel { a: -1, b: 0, c: 0, d: 0, k: 0 });
            assert(t0.a == 0 && t0.b == 0 && t0.c == 0 && t0.d == 0) by (nonlinear_arith)
                requires
                    t0.a == 1 * 0 + 2 * 0 * 0 - 0 * 0 - 2 * 0 * 0,
                    t0.b == 1 * 0 + 0 * 0 - 0 * 0 - 0 * 0,
                    t0.c == 1 * 0 + 0 * 0 + 2 * 0 * 0 + 2 * 0 * 0,
                    t0.d == 1 * 0 + 0 * 0 + 0 * 0 + 0 * 0,
            ;
            assert(t0 == AmpModel { a: 0, b: 0, c: 0, d: 0, k: 0 });
            assert(t1.a == 0 && t1.b == 0 && t1.c == 0 && t1.d == 0) by (nonlinear_arith)
                requires
                    t1.a == 0 * (-1) + 2 * 0 * 0 - 0 * 0 - 2 * 0 * 0,
                    t1.b == 0 * 0 + 0 * (-1) - 0 * 0 - 0 * 0,
                    t1.c == 0 * 0 + 0 * (-1) + 2 * 0 * 0 + 2 * 0 * 0,
                    t1.d == 0 * 0 + 0 * (-1) + 0 * 0 + 0 * 0,
            ;
            assert(t1 == AmpModel { a: 0, b: 0, c: 0, d: 0, k: 0 });
            assert(z == AmpModel { a: 0, b: 0, c: 0, d: 0, k: 0 });
            assert(z == m_lift(e, (kk - e.k) as nat));
        }
    } else {
        if bj == 0 {
            assert(base_entry(GateKind::PauliZ, bi, 0) == AmpModel { a: 0, b: 0, c: 0, d: 0, k: 0 });
            assert(base_entry(GateKind::PauliZ, bi, 1) == AmpModel { a: -1, b: 0, c: 0, d: 0, k: 0 });
            assert(m_conj(base_entry(GateKind::PauliZ, bj, 0)) == AmpModel { a: 1, b: 0, c: 0, d: 0, k: 0 });
            assert(m_conj(base_entry(GateKind::PauliZ, bj, 1)) == AmpModel { a: 0, b: 0, c: 0, d: 0, k: 0 });
            assert(t0.a == 0 && t0.b == 0 && t0.c == 0 && t0.d == 0) by (nonlinear_arith)
                requires
                    t0.a == 0 * 1 + 2 * 0 * 0 - 0 * 0 - 2 * 0 * 0,
                    t0.b == 0 * 0 + 0 * 1 - 0 * 0 - 0 * 0,
                    t0.c == 0 * 0 + 0 * 1 + 2 * 0 * 0 + 2 * 0 * 0,
                    t0.d == 0 * 0 + 0 * 1 + 0 * 0 + 0 * 0,
            ;
            assert(t0 == AmpModel { a: 0, b: 0, c: 0, d: 0, k: 0 });
            assert(t1.a == 0 && t1.b == 0 && t1.c == 0 && t1.d == 0) by (nonlinear_arith)
                requires
                    t1.a == (-1) * 0 + 2 * 0 * 0 - 0 * 0 - 2 * 0 * 0,
                    t1.b == (-1) * 0 + 0 * 0 - 0 * 0 - 0 * 0,
                    t1.c == (-1) * 0 + 0 * 0 + 2 * 0 * 0 + 2 * 0 * 0,
                    t1.d == (-1) * 0 + 0 * 0 + 0 * 0 + 0 * 0,
            ;
            assert(t1 == AmpModel { a: 0, b: 0, c: 0, d: 0, k: 0 });
            assert(z == AmpModel { a: 0, b: 0, c: 0, d: 0, k: 0 });
            assert(z == m_lift(e, (kk - e.k) as nat));
        } else {
            assert(base_entry(GateKind::PauliZ, bi, 0) == AmpModel { a: 0, b: 0, c: 0, d: 0, k: 0 });
            assert(base_entry(GateKind::PauliZ, bi, 1) == AmpModel { a: -1, b: 0, c: 0, d: 0, k: 0 });
            assert(m_conj(base_entry(GateKind::PauliZ, bj, 0)) == AmpModel { a: 0, b: 0, c: 0, d: 0, k: 0 });
            assert(m_conj(base_entry(GateKind::PauliZ, bj, 1)) == AmpModel { a: -1, b: 0, c: 0, d: 0, k: 0 });
            assert(t0.a == 0 && t0.b == 0 && t0.c == 0 && t0.d == 0) by (nonlinear_arith)
                requires
                    t0.a == 0 * 0 + 2 * 0 * 0 - 0 * 0 - 2 * 0 * 0,
                    t0.b == 0 * 0 + 0 * 0 - 0 * 0 - 0 * 0,
                    t0.c == 0 * 0 + 0 * 0 + 2 * 0 * 0 + 2 * 0 * 0,
                    t0.d == 0 * 0 + 0 * 0 + 0 * 0 + 0 * 0,
            ;
            assert(t0 == AmpModel { a: 0, b: 0, c: 0, d: 0, k: 0 });
            assert(t1.a == 1 && t1.b == 0 && t1.c == 0 && t1.d == 0) by (nonlinear_arith)
                requires
                    t1.a == (-1) * (-1) + 2 * 0 * 0 - 0 * 0 - 2 * 0 * 0,
                    t1.b == (-1) * 0 + 0 * (-1) - 0 * 0 - 0 * 0,
                    t1.c == (-1) * 0 + 0 * (-1) + 2 * 0 * 0 + 2 * 0 * 0,
                    t1.d == (-1) * 0 + 0 * (-1) + 0 * 0 + 0 * 0,
            ;
            assert(t1 == AmpModel { a: 1, b: 0, c: 0, d: 0, k: 0 });
            assert(z == AmpModel { a: 1, b: 0, c: 0, d: 0, k: 0 });
            assert(z == m_lift(e, (kk - e.k) as nat));
        }
    }
    assert(t1.k == kk);
    lemma_lift_linear(t0, t1, z, (128 - kk) as nat);
    lemma_lift_compose(e, (kk - e.k) as nat, (128 - kk) as nat);
}

/// Row orthonormality of the Hadamard 2x2 matrix, by direct computation
/// over the four row-pair cases.
proof fn lemma_orthonormal_h(bi: nat, bj: nat)
    requires
        bi < 2,
        bj < 2,
    ensures
        ({
            let t0 = m_mul(base_entry(GateKind::Hadamard, bi, 0), m_conj(base_entry(GateKind::Hadamard, bj, 0)));
            let t1 = m_mul(base_entry(GateKind::Hadamard, bi, 1), m_conj(base_entry(GateKind::Hadamard, bj, 1)));
            let e = if bi == bj {
                m_one()
            } else {
                m_zero()
            };
            &&& t0.k <= 120
            &&& t1.k <= 120
            &&& m_cmp(t0).a + m_cmp(t1).a == m_cmp(e).a
            &&& m_cmp(t0).b + m_cmp(t1).b == m_cmp(e).b
            &&& m_cmp(t0).c + m_cmp(t1).c == m_cmp(e).c
            &&& m_cmp(t0).d + m_cmp(t1).d == m_cmp(e).d
        }),
{
    let t0 = m_mul(base_entry(GateKind::Hadamard, bi, 0), m_conj(base_entry(GateKind::Hadamard, bj, 0)));
    let t1 = m_mul(base_entry(GateKind::Hadamard, bi, 1), m_conj(base_entry(GateKind::Hadamard, bj, 1)));
    let e = if bi == bj {
        m_one()
    } else {
        m_zero()
    };
    let kk = t0.k;
    let z = AmpModel { a: t0.a + t1.a, b: t0.b + t1.b, c: t0.c + t1.c, d: t0.d + t1.d, k: kk };
    lemma_lift_two(m_one());
    lemma_lift_two(m_zero());
    if bi == 0 {
        if bj == 0 {
            assert(base_entry(GateKind::Hadamard, bi, 0) == AmpModel { a: 1, b: 0, c: 0, d: 0, k: 1 });
            assert(base_entry(GateKind::Hadamard, bi, 1) == AmpModel { a: 1, b: 0, c: 0, d: 0, k: 1 });
            assert(m_conj(base_entry(GateKind::Hadamard, bj, 0)) == AmpModel { a: 1, b: 0, c: 0, d: 0, k: 1 });
            assert(m_conj(base_entry(GateKind::Hadamard, bj, 1)) == AmpModel { a: 1, b: 0, c: 0, d: 0, k: 1 });
            assert(t0.a == 1 && t0.b == 0 && t0.c == 0 && t0.d == 0) by (nonlinear_arith)
                requires
                    t0.a == 1 * 1 + 2 * 0 * 0 - 0 * 0 - 2 * 0 * 0,
                    t0.b == 1 * 0 + 0 * 1 - 0 * 0 - 0 * 0,
                    t0.c == 1 * 0 + 0 * 1 + 2 * 0 * 0 + 2 * 0 * 0,
                    t0.d == 1 * 0 + 0 * 1 + 0 * 0 + 0 * 0,
            ;
            assert(t0 == AmpModel { a: 1, b: 0, c: 0, d: 0, k: 2 });
            assert(t1.a == 1 && t1.b == 0 && t1.c == 0 && t1.d == 0) by (nonlinear_arith)
                requires
                    t1.a == 1 * 1 + 2 * 0 * 0 - 0 * 0 - 2 * 0 * 0,
                    t1.b == 1 * 0 + 0 * 1 - 0 * 0 - 0 * 0,
                    t1.c == 1 * 0 + 0 * 1 + 2 * 0 * 0 + 2 * 0 * 0,
                    t1.d == 1 * 0 + 0 * 1 + 0 * 0 + 0 * 0,
            ;
            assert(t1 == AmpModel { a: 1, b: 0, c: 0, d: 0, k: 2 });
            assert(z == AmpModel { a: 2, b: 0, c: 0, d: 0, k: 2 });
            assert(z == m_lift(e, (kk - e.k) as nat));
        } else {
            assert(base_entry(GateKind::Hadamard, bi, 0) == AmpModel { a: 1, b: 0, c: 0, d: 0, k: 1 });
            assert(base_entry(GateKind::Hadamard, bi, 1) == AmpModel { a: 1, b: 0, c: 0, d: 0, k: 1 });
            assert(m_conj(base_entry(GateKind::Hadamard, bj, 0)) == AmpModel { a: 1, b: 0, c: 0, d: 0, k: 1 });
            assert(m_conj(base_entry(GateKind::Hadamard, bj, 1)) == AmpModel { a: -1, b: 0, c: 0, d: 0, k: 1 });
            assert(t0.a == 1 && t0.b == 0 && t0.c == 0 && t0.d == 0) by (nonlinear_arith)
                requires
                    t0.a == 1 * 1 + 2 * 0 * 0 - 0 * 0 - 2 * 0 * 0,
                    t0.b == 1 * 0 + 0 * 1 - 0 * 0 - 0 * 0,
                    t0.c == 1 * 0 + 0 * 1 + 2 * 0 * 0 + 2 * 0 * 0,
                    t0.d == 1 * 0 + 0 * 1 + 0 * 0 + 0 * 0,
            ;
            assert(t0 == AmpModel { a: 1, b: 0, c: 0, d: 0, k: 2 });
            assert(t1.a == -1 && t1.b == 0 && t1.c == 0 && t1.d == 0) by (nonlinear_arith)
                requires
                    t1.a == 1 * (-1) + 2 * 0 * 0 - 0 * 0 - 2 * 0 * 0,
                    t1.b == 1 * 0 + 0 * (-1) - 0 * 0 - 0 * 0,
                    t1.c == 1 * 0 + 0 * (-1) + 2 * 0 * 0 + 2 * 0 * 0,
                    t1.d == 1 * 0 + 0 * (-1) + 0 * 0 + 0 * 0,
            ;
            assert(t1 == AmpModel { a: -1, b: 0, c: 0, d: 0, k: 2 });
            assert(z == AmpModel { a: 0, b: 0, c: 0, d: 0, k: 2 });
            assert(z == m_lift(e, (kk - e.k) as nat));
        }
    } else {
        if bj == 0 {
            assert(base_entry(GateKind::Hadamard, bi, 0) == AmpModel { a: 1, b: 0, c: 0, d: 0, k: 1 });
            assert(base_entry(GateKind::Hadamard, bi, 1) == AmpModel { a: -1, b: 0, c: 0, d: 0, k: 1 });
            assert(m_conj(base_entry(GateKind::Hadamard, bj, 0)) == AmpModel { a: 1, b: 0, c: 0, d: 0, k: 1 });
            assert(m_conj(base_entry(GateKind::Hadamard, bj, 1)) == AmpModel { a: 1, b: 0, c: 0, d: 0, k: 1 });
            assert(t0.a == 1 && t0.b == 0 && t0.c == 0 && t0.d == 0) by (nonlinear_arith)
                requires
                    t0.a == 1 * 1 + 2 * 0 * 0 - 0 * 0 - 2 * 0 * 0,
                    t0.b == 1 * 0 + 0 * 1 - 0 * 0 - 0 * 0,
                    t0.c == 1 * 0 + 0 * 1 + 2 * 0 * 0 + 2 * 0 * 0,
                    t0.d == 1 * 0 + 0 * 1 + 0 * 0 + 0 * 0,
            ;
            assert(t0 == AmpModel { a: 1, b: 0, c: 0, d: 0, k: 2 });
            assert(t1.a == -1 && t1.b == 0 && t1.c == 0 && t1.d == 0) by (nonlinear_arith)
                requires
                    t1.a == (-1) * 1 + 2 * 0 * 0 - 0 * 0 - 2 * 0 * 0,
                    t1.b == (-1) * 0 + 0 * 1 - 0 * 0 - 0 * 0,
                    t1.c == (-1) * 0 + 0 * 1 + 2 * 0 * 0 + 2 * 0 * 0,
                    t1.d == (-1) * 0 + 0 * 1 + 0 * 0 + 0 * 0,
            ;
            assert(t1 == AmpModel { a: -1, b: 0, c: 0, d: 0, k: 2 });
            assert(z == AmpModel { a: 0, b: 0, c: 0, d: 0, k: 2 });
            assert(z == m_lift(e, (kk - e.k) as nat));
        } else {
            assert(base_entry(GateKind::Hadamard, bi, 0) == AmpModel { a: 1, b: 0, c: 0, d: 0, k: 1 });
            assert(base_entry(GateKind::Hadamard, bi, 1) == AmpModel { a: -1, b: 0, c: 0, d: 0, k: 1 });
            assert(m_conj(base_entry(GateKind::Hadamard, bj, 0)) == AmpModel { a: 1, b: 0, c: 0, d: 0, k: 1 });
            assert(m_conj(base_entry(GateKind::Hadamard, bj, 1)) == AmpModel { a: -1, b: 0, c: 0, d: 0, k: 1 });
            assert(t0.a == 1 && t0.b == 0 && t0.c == 0 && t0.d == 0) by (nonlinear_arith)
                requires
                    t0.a == 1 * 1 + 2 * 0 * 0 - 0 * 0 - 2 * 0 * 0,
                    t0.b == 1 * 0 + 0 * 1 - 0 * 0 - 0 * 0,
                    t0.c == 1 * 0 + 0 * 1 + 2 * 0 * 0 + 2 * 0 * 0,
                    t0.d == 1 * 0 + 0 * 1 + 0 * 0 + 0 * 0,
            ;
            assert(t0 == AmpModel { a: 1, b: 0, c: 0, d: 0, k: 2 });
            assert(t1.a == 1 && t1.b == 0 && t1.c == 0 && t1.d == 0) by (nonlinear_arith)
                requires
                    t1.a == (-1) * (-1) + 2 * 0 * 0 - 0 * 0 - 2 * 0 * 0,
                    t1.b == (-1) * 0 + 0 * (-1) - 0 * 0 - 0 * 0,
                    t1.c == (-1) * 0 + 0 * (-1) + 2 * 0 * 0 + 2 * 0 * 0,
                    t1.d == (-1) * 0 + 0 * (-1) + 0 * 0 + 0 * 0,
            ;
            assert(t1 == AmpModel { a: 1, b: 0, c: 0, d: 0, k: 2 });
            assert(z == AmpModel { a: 2, b: 0, c: 0, d: 0, k: 2 });
            assert(z == m_lift(e, (kk - e.k) as nat));
        }
    }
    assert(t1.k == kk);
    lemma_lift_linear(t0, t1, z, (128 - kk) as nat);
    lemma_lift_compose(e, (kk - e.k) as nat, (128 - kk) as nat);
}

/// The rows of every single-qubit base matrix are orthonormal: summing
/// entry x conjugate-entry over a row pair gives 1 on the diagonal and 0 off
/// it, as exact values.
proof fn lemma_base_rows_orthonormal(kind: GateKind, bi: nat, bj: nat)
    requires
        is_single_qubit(kind),
        bi < 2,
        bj < 2,
    ensures
        ({
            let t0 = m_mul(base_entry(kind, bi, 0), m_conj(base_entry(kind, bj, 0)));
            let t1 = m_mul(base_entry(kind, bi, 1), m_conj(base_entry(kind, bj, 1)));
            let e = if bi == bj {
                m_one()
            } else {
                m_zero()
            };
            &&& t0.k <= 120
            &&& t1.k <= 120
            &&& m_cmp(t0).a + m_cmp(t1).a == m_cmp(e).a
            &&& m_cmp(t0).b + m_cmp(t1).b == m_cmp(e).b
            &&& m_cmp(t0).c + m_cmp(t1).c == m_cmp(e).c
            &&& m_cmp(t0).d + m_cmp(t1).d == m_cmp(e).d
        }),
{
    match kind {
        GateKind::PauliX => lemma_orthonormal_x(bi, bj),
        GateKind::PauliY => lemma_orthonormal_y(bi, bj),
        GateKind::PauliZ => lemma_orthonormal_z(bi, bj),
        GateKind::Hadamard => lemma_orthonormal_h(bi, bj),
        GateKind::ControlledNot => assert(false),
    }
}

/// Row `i` of the expansion of `g`, and the conjugated row `j`: the operands
/// of the Gram product that unitarity speaks about.
pub open spec fn expansion_row(g: GateView, n: nat, i: nat) -> Seq<AmpModel> {
    Seq::new(crate::p2(n), |l: int| gate_entry(g, n, i, l as nat))
}

pub open spec fn conj_expansion_row(g: GateView, n: nat, j: nat) -> Seq<AmpModel> {
    Seq::new(crate::p2(n), |l: int| m_conj(gate_entry(g, n, j, l as nat)))
}

/// Unitarity of every single-qubit expansion: entry (i, j) of M times the
/// conjugate transpose of M is exactly 1 on the diagonal and exactly 0 off
/// it, for every qubit count and every valid target.
pub proof fn lemma_single_qubit_unitary(g: GateView, n: nat, i: nat, j: nat)
    requires
        gate_valid(g, n),
        g.control is None,
        i < crate::p2(n),
        j < crate::p2(n),
    ensures
        m_same(
            dot_m(expansion_row(g, n, i), conj_expansion_row(g, n, j)),
            if i == j {
                m_one()
            } else {
                m_zero()
            },
        ),
{
    let t = g.target;
    let row = expansion_row(g, n, i);
    let cr = conj_expansion_row(g, n, j);
    let size = crate::p2(n);
    let e = if i == j {
        m_one()
    } else {
        m_zero()
    };
    crate::lemma_p2_pos(t);
    vstd::arithmetic::div_mod::lemma_mod_bound((i / crate::p2(t)) as int, 2);
    vstd::arithmetic::div_mod::lemma_mod_bound((j / crate::p2(t)) as int, 2);
    let bi = bit(i, t);
    let bj = bit(j, t);
    let l0 = set_bit(i, t, 0);
    let l1 = set_bit(i, t, 1);
    lemma_set_bit(i, t, 0, n);
    lemma_set_bit(i, t, 1, n);
    assert(l1 == l0 + crate::p2(t));
    assert(forall|l: int| 0 <= l < size ==> (#[trigger] m_mul(row[l], cr[l])).k <= 120) by {
        assert forall|l: int| 0 <= l < size implies (#[trigger] m_mul(row[l], cr[l])).k <= 120 by {
            crate::gate::lemma_gate_entry_wf(g, n, i, l as nat);
            crate::gate::lemma_gate_entry_wf(g, n, j, l as nat);
        };
    };
    assert forall|l: int| 0 <= l < size && l != l0 && l != l1 implies m_is_zero(
        #[trigger] m_mul(row[l], cr[l]),
    ) by {
        lemma_term_zero_off_support(g, n, i, j, l as nat);
    };
    lemma_dot_cmp_two(row, cr, l0 as int, l1 as int, size);
    if !eq_except(i, j, t) {
        // no column can match both rows, so the two remaining terms vanish too
        assert forall|l: int| l == l0 || l == l1 implies m_is_zero(
            m_mul(row[l], cr[l]),
        ) by {
            let ln = l as nat;
            if eq_except(j, ln, t) {
                assert(eq_except(i, j, t)) by {
                    assert forall|q: nat| q != t implies bit(i, q) == bit(j, q) by {
                        assert(bit(i, q) == bit(ln, q));
                        assert(bit(j, q) == bit(ln, q));
                    };
                };
                assert(false);
            }
            assert(m_is_zero(cr[l]));
            assert(m_is_zero(m_mul(row[l], cr[l])));
        };
        lemma_cmp_zero(m_mul(row[l0 as int], cr[l0 as int]));
        lemma_cmp_zero(m_mul(row[l1 as int], cr[l1 as int]));
        lemma_cmp_zero(m_zero());
        assert(i != j);
        lemma_cmp_eq(dot_prefix(row, cr, size), e);
    } else {
        // both rows live on the two columns that agree with i off the target
        assert(row[l0 as int] == base_entry(g.kind, bi, 0));
        assert(row[l1 as int] == base_entry(g.kind, bi, 1));
        assert(eq_except(j, l0, t)) by {
            assert forall|q: nat| q != t implies bit(j, q) == bit(l0, q) by {
                assert(bit(j, q) == bit(i, q));
                assert(bit(l0, q) == bit(i, q));
            };
        };
        assert(eq_except(j, l1, t)) by {
            assert forall|q: nat| q != t implies bit(j, q) == bit(l1, q) by {
                assert(bit(j, q) == bit(i, q));
                assert(bit(l1, q) == bit(i, q));
            };
        };
        assert(cr[l0 as int] == m_conj(base_entry(g.kind, bj, 0)));
        assert(cr[l1 as int] == m_conj(base_entry(g.kind, bj, 1)));
        lemma_base_rows_orthonormal(g.kind, bi, bj);
        if i != j {
            // equal off the target but different labels: the target bits differ
            assert(bi != bj) by {
                if bi == bj {
                    assert forall|q: nat| q < n implies bit(i, q) == bit(j, q) by {
                        if q != t {
                            assert(bit(i, q) == bit(j, q));
                        }
                    };
                    lemma_label_ext(i, j, n);
                }
            };
        }
        lemma_cmp_eq(dot_prefix(row, cr, size), e);
    }
}

/// Multiplying by the amplitude 1 changes nothing.
proof fn lemma_mul_one(z: AmpModel)
    ensures
        m_mul(m_one(), z) == z,
{
    let r = m_mul(m_one(), z);
    assert(r.a == z.a && r.b == z.b && r.c == z.c && r.d == z.d) by (nonlinear_arith)
        requires
            r.a == 1 * z.a + 2 * 0 * z.b - 0 * z.c - 2 * 0 * z.d,
            r.b == 1 * z.b + 0 * z.a - 0 * z.d - 0 * z.c,
            r.c == 1 * z.c + 0 * z.a + 2 * 0 * z.d + 2 * 0 * z.b,
            r.d == 1 * z.d + 0 * z.a + 0 * z.c + 0 * z.b,
    ;
}

/// Multiplying by -1 negates every coefficient.
proof fn lemma_mul_neg_one(z: AmpModel)
    ensures
        m_mul(AmpModel { a: -1, b: 0, c: 0, d: 0, k: 0 }, z) == (AmpModel {
            a: -z.a,
            b: -z.b,
            c: -z.c,
            d: -z.d,
            k: z.k,
        }),
{
    let r = m_mul(AmpModel { a: -1, b: 0, c: 0, d: 0, k: 0 }, z);
    assert(r.a == -z.a && r.b == -z.b && r.c == -z.c && r.d == -z.d) by (nonlinear_arith)
        requires
            r.a == (-1) * z.a + 2 * 0 * z.b - 0 * z.c - 2 * 0 * z.d,
            r.b == (-1) * z.b + 0 * z.a - 0 * z.d - 0 * z.c,
            r.c == (-1) * z.c + 0 * z.a + 2 * 0 * z.d + 2 * 0 * z.b,
            r.d == (-1) * z.d + 0 * z.a + 0 * z.c + 0 * z.b,
    ;
}

/// Multiplying by i rotates the coefficient pairs.
proof fn lemma_mul_i(z: AmpModel)
    ensures
        m_mul(AmpModel { a: 0, b: 0, c: 1, d: 0, k: 0 }, z) == (AmpModel {
            a: -z.c,
            b: -z.d,
            c: z.a,
            d: z.b,
            k: z.k,
        }),
{
    let r = m_mul(AmpModel { a: 0, b: 0, c: 1, d: 0, k: 0 }, z);
    assert(r.a == -z.c && r.b == -z.d && r.c == z.a && r.d == z.b) by (nonlinear_arith)
        requires
            r.a == 0 * z.a + 2 * 0 * z.b - 1 * z.c - 2 * 0 * z.d,
            r.b == 0 * z.b + 0 * z.a - 1 * z.d - 0 * z.c,
            r.c == 0 * z.c + 1 * z.a + 2 * 0 * z.d + 2 * 0 * z.b,
            r.d == 0 * z.d + 0 * z.a + 0 * z.c + 1 * z.b,
    ;
}

/// Multiplying by -i rotates the coefficient pairs the other way.
proof fn lemma_mul_neg_i(z: AmpModel)
    ensures
        m_mul(AmpModel { a: 0, b: 0, c: -1, d: 0, k: 0 }, z) == (AmpModel {
            a: z.c,
            b: z.d,
            c: -z.a,
            d: -z.b,
            k: z.k,
        }),
{
    let r = m_mul(AmpModel { a: 0, b: 0, c: -1, d: 0, k: 0 }, z);
    assert(r.a == z.c && r.b == z.d && r.c == -z.a && r.d == -z.b) by (nonlinear_arith)
        requires
            r.a == 0 * z.a + 2 * 0 * z.b - (-1) * z.c - 2 * 0 * z.d,
            r.b == 0 * z.b + 0 * z.a - (-1) * z.d - 0 * z.c,
            r.c == 0 * z.c + (-1) * z.a + 2 * 0 * z.d + 2 * 0 * z.b,
            r.d == 0 * z.d + 0 * z.a + 0 * z.c + (-1) * z.b,
    ;
}

/// Where one of the self-inverse gates sends basis label `i`: Z fixes it,
/// X and Y flip the target bit, ControlledNot flips the target bit when the
/// control bit is set.
pub open spec fn self_inverse_image(g: GateView, i: nat) -> nat {
    match g.control {
        Some(c) => cnot_image(c, g.target, i),
        None => match g.kind {
            GateKind::PauliZ => i,
            _ => set_bit(i, g.target, (1 - bit(i, g.target)) as nat),
        },
    }
}

/// Row `i` of a self-inverse gate's expansion has a single possibly nonzero
/// entry: in the image column, with a unit coefficient that cancels against
/// the matching coefficient of the image row.
proof fn lemma_self_inverse_row(g: GateView, n: nat, i: nat)
    requires
        gate_valid(g, n),
        !(g.kind is Hadamard),
        i < crate::p2(n),
    ensures
        self_inverse_image(g, i) < crate::p2(n),
        self_inverse_image(g, self_inverse_image(g, i)) == i,
        forall|l: nat|
            l < crate::p2(n) && l != self_inverse_image(g, i) ==> m_is_zero(
                #[trigger] gate_entry(g, n, i, l),
            ),
        forall|l: nat| l < crate::p2(n) ==> (#[trigger] gate_entry(g, n, i, l)).k == 0,
        ({
            let s = self_inverse_image(g, i);
            let e1 = gate_entry(g, n, i, s);
            let e2 = gate_entry(g, n, s, i);
            ||| (e1 == m_one() && e2 == m_one())
            ||| (e1 == AmpModel { a: -1, b: 0, c: 0, d: 0, k: 0 } && e2 == AmpModel {
                a: -1,
                b: 0,
                c: 0,
                d: 0,
                k: 0,
            })
            ||| (e1 == AmpModel { a: 0, b: 0, c: 1, d: 0, k: 0 } && e2 == AmpModel {
                a: 0,
                b: 0,
                c: -1,
                d: 0,
                k: 0,
            })
            ||| (e1 == AmpModel { a: 0, b: 0, c: -1, d: 0, k: 0 } && e2 == AmpModel {
                a: 0,
                b: 0,
                c: 1,
                d: 0,
                k: 0,
            })
        }),
{
    let t = g.target;
    let s = self_inverse_image(g, i);
    crate::lemma_p2_pos(t);
    vstd::arithmetic::div_mod::lemma_mod_bound((i / crate::p2(t)) as int, 2);
    let bi = bit(i, t);
    match g.control {
        Some(c) => {
            lemma_cnot_permutation(c, t, n, i);
            lemma_cnot_permutation(c, t, n, s);
            assert forall|l: nat|
                l < crate::p2(n) && l != s implies m_is_zero(#[trigger] gate_entry(g, n, i, l)) by {
                assert(!cnot_on(c, t, i, l));
            };
            assert(cnot_on(c, t, s, i) <==> i == cnot_image(c, t, s));
            assert(gate_entry(g, n, s, i) == m_one());
        },
        None => {
            lemma_set_bit(i, t, (1 - bi) as nat, n);
            if g.kind is PauliZ {
                assert(s == i);
            } else {
                vstd::arithmetic::div_mod::lemma_mod_bound((s / crate::p2(t)) as int, 2);
                lemma_set_bit(s, t, bi, n);
                lemma_label_ext(self_inverse_image(g, s), i, n);
            }
            assert forall|l: nat|
                l < crate::p2(n) && l != s implies m_is_zero(#[trigger] gate_entry(g, n, i, l)) by {
                if eq_except(i, l, t) {
                    vstd::arithmetic::div_mod::lemma_mod_bound((l / crate::p2(t)) as int, 2);
                    lemma_eq_except_form(i, l, t, n);
                    if g.kind is PauliZ {
                        lemma_set_bit(i, t, bi, n);
                        assert(l == set_bit(i, t, bit(l, t)) && bit(l, t) != bi);
                    } else {
                        assert(l == set_bit(i, t, bit(l, t)) && bit(l, t) == bi);
                        lemma_set_bit(i, t, bi, n);
                    }
                }
            };
            assert(eq_except(i, s, t));
            assert(eq_except(s, i, t));
        },
    }
}

/// Two models with equal comparison coefficients and exponents within range
/// denote the same value.
proof fn lemma_cmp_eq(x: AmpModel, y: AmpModel)
    requires
        x.k <= 128,
        y.k <= 128,
        m_cmp(x).a == m_cmp(y).a,
        m_cmp(x).b == m_cmp(y).b,
        m_cmp(x).c == m_cmp(y).c,
        m_cmp(x).d == m_cmp(y).d,
    ensures
        m_same(x, y),
{
    lemma_lift_k(x, (128 - x.k) as nat);
    lemma_lift_k(y, (128 - y.k) as nat);
}

/// A Gram-product term of a single-qubit expansion vanishes off the two
/// columns that agree with row `i` away from the target.
proof fn lemma_term_zero_off_support(g: GateView, n: nat, i: nat, j: nat, l: nat)
    requires
        gate_valid(g, n),
        g.control is None,
        i < crate::p2(n),
        j < crate::p2(n),
        l < crate::p2(n),
        l != set_bit(i, g.target, 0),
        l != set_bit(i, g.target, 1),
    ensures
        m_is_zero(
            m_mul(gate_entry(g, n, i, l), m_conj(gate_entry(g, n, j, l))),
        ),
{
    let t = g.target;
    if eq_except(i, l, t) {
        crate::lemma_p2_pos(t);
        vstd::arithmetic::div_mod::lemma_mod_bound((l / crate::p2(t)) as int, 2);
        lemma_eq_except_form(i, l, t, n);
        assert(false);
    }
    assert(m_is_zero(gate_entry(g, n, i, l)));
}


/// Applying PauliX, PauliY, PauliZ, or ControlledNot twice with the same
/// target and control returns every amplitude of the state to its original
/// value: each of these gates is its own inverse.
pub proof fn lemma_self_inverse_twice(g: GateView, n: nat, v: Seq<AmpModel>, i: nat)
    requires
        gate_valid(g, n),
        !(g.kind is Hadamard),
        v.len() == crate::p2(n),
        forall|l: int| 0 <= l < v.len() ==> (#[trigger] v[l]).k <= 60,
        i < crate::p2(n),
    ensures
        m_same(
            apply_m(
                crate::simulator::gate_matrix_m(g, n),
                apply_m(crate::simulator::gate_matrix_m(g, n), v),
            )[i as int],
            v[i as int],
        ),
{
    let size = crate::p2(n);
    let mm = crate::simulator::gate_matrix_m(g, n);
    let w1 = apply_m(mm, v);
    let w2 = apply_m(mm, w1);
    // every entry of the first application is, as a value, a unit
    // coefficient times the amplitude at the image label
    assert forall|x: nat| x < size implies {
        &&& w1[x as int].k <= 120
        &&& m_cmp(w1[x as int]) == m_cmp(
            m_mul(
                gate_entry(g, n, x, self_inverse_image(g, x)),
                v[self_inverse_image(g, x) as int],
            ),
        )
    } by {
        lemma_self_inverse_row(g, n, x);
        let s = self_inverse_image(g, x);
        let row = mm[x as int];
        assert(row == Seq::new(size, |j: int| gate_entry(g, n, x, j as nat)));
        assert forall|l: int| 0 <= l < size && l != s && l != size implies m_is_zero(
            #[trigger] m_mul(row[l], v[l]),
        ) by {
            assert(m_is_zero(gate_entry(g, n, x, l as nat)));
            crate::amp::lemma_mul_zero_left(row[l], v[l]);
        };
        assert forall|l: int| 0 <= l < size implies (#[trigger] m_mul(row[l], v[l])).k <= 120 by {
            assert(row[l] == gate_entry(g, n, x, l as nat));
        };
        lemma_dot_cmp_two(row, v, s as int, size as int, size);
        assert(w1[x as int] == dot_m(row, v));
        lemma_cmp_eq(dot_prefix(row, v, size), m_mul(row[s as int], v[s as int]));
    };
    let s = self_inverse_image(g, i);
    lemma_self_inverse_row(g, n, i);
    let e1 = gate_entry(g, n, i, s);
    let e2 = gate_entry(g, n, s, i);
    // the second application at label i reads the image entry of the first
    let row = mm[i as int];
    assert(row == Seq::new(size, |j: int| gate_entry(g, n, i, j as nat)));
    assert forall|l: int| 0 <= l < size && l != s && l != size implies m_is_zero(
        #[trigger] m_mul(row[l], w1[l]),
    ) by {
        assert(m_is_zero(gate_entry(g, n, i, l as nat)));
        crate::amp::lemma_mul_zero_left(row[l], w1[l]);
    };
    assert forall|l: int| 0 <= l < size implies (#[trigger] m_mul(row[l], w1[l])).k <= 120 by {
        assert(row[l] == gate_entry(g, n, i, l as nat));
        assert(w1[l].k <= 120);
    };
    lemma_dot_cmp_two(row, w1, s as int, size as int, size);
    assert(w2[i as int] == dot_m(row, w1));
    lemma_cmp_eq(dot_prefix(row, w1, size), m_mul(e1, w1[s as int]));
    // push the comparison form through the unit coefficients
    assert(self_inverse_image(g, s) == i);
    crate::amp::lemma_cmp_mul_left(e1, w1[s as int]);
    crate::amp::lemma_cmp_mul_left(e1, m_mul(e2, v[i as int]));
    crate::amp::lemma_cmp_mul_left(e2, v[i as int]);
    assert(m_cmp(w2[i as int]) == m_mul(e1, m_mul(e2, m_cmp(v[i as int]))));
    // and cancel them
    let z = m_cmp(v[i as int]);
    if e1 == m_one() {
        lemma_mul_one(z);
        lemma_mul_one(m_mul(e2, z));
    } else if e1 == (AmpModel { a: -1, b: 0, c: 0, d: 0, k: 0 }) {
        lemma_mul_neg_one(z);
        lemma_mul_neg_one(m_mul(e2, z));
    } else if e1 == (AmpModel { a: 0, b: 0, c: 1, d: 0, k: 0 }) {
        lemma_mul_neg_i(z);
        lemma_mul_i(m_mul(e2, z));
    } else {
        lemma_mul_i(z);
        lemma_mul_neg_i(m_mul(e2, z));
    }
    assert(m_mul(e1, m_mul(e2, z)) == z);
}


/// Multiplying by the amplitude 1 on the right changes nothing.
proof fn lemma_mul_one_right(z: AmpModel)
    ensures
        m_mul(z, m_one()) == z,
{
    let r = m_mul(z, m_one());
    assert(r.a == z.a && r.b == z.b && r.c == z.c && r.d == z.d) by (nonlinear_arith)
        requires
            r.a == z.a * 1 + 2 * z.b * 0 - z.c * 0 - 2 * z.d * 0,
            r.b == z.a * 0 + z.b * 1 - z.c * 0 - z.d * 0,
            r.c == z.a * 0 + z.c * 1 + 2 * z.b * 0 + 2 * z.d * 0,
            r.d == z.a * 0 + z.d * 1 + z.b * 0 + z.c * 0,
    ;
}

/// A product with a zero-valued right factor is zero-valued.
proof fn lemma_mul_zero_right(x: AmpModel, y: AmpModel)
    requires
        m_is_zero(y),
    ensures
        m_is_zero(m_mul(x, y)),
{
    let r = m_mul(x, y);
    assert(r.a == 0 && r.b == 0 && r.c == 0 && r.d == 0) by (nonlinear_arith)
        requires
            r.a == x.a * 0 + 2 * x.b * 0 - x.c * 0 - 2 * x.d * 0,
            r.b == x.a * 0 + x.b * 0 - x.c * 0 - x.d * 0,
            r.c == x.a * 0 + x.c * 0 + 2 * x.b * 0 + 2 * x.d * 0,
            r.d == x.a * 0 + x.d * 0 + x.b * 0 + x.c * 0,
    ;
}

/// The 2x2 factor that a single-qubit gate's tensor expansion places at
/// qubit position `q`: its own matrix at the target, the identity
/// everywhere else, indexed by the labels' bits at `q`.
pub open spec fn tensor_factor(g: GateView, q: nat, i: nat, j: nat) -> AmpModel {
    if q == g.target {
        base_entry(g.kind, bit(i, q), bit(j, q))
    } else {
        if bit(i, q) == bit(j, q) {
            m_one()
        } else {
            m_zero()
        }
    }
}

/// Entry (i, j) of the tensor product of the factors at positions
/// 0 .. m-1: the textbook entrywise reading of the m-fold Kronecker
/// product under this library's bit convention.
pub open spec fn tensor_entry(g: GateView, m: nat, i: nat, j: nat) -> AmpModel
    decreases m,
{
    if m == 0 {
        m_one()
    } else {
        m_mul(tensor_factor(g, (m - 1) as nat, i, j), tensor_entry(g, (m - 1) as nat, i, j))
    }
}

/// When the labels agree away from the target below `m`, the partial tensor
/// product collapses to the target factor (or to 1 while the target is not
/// yet included).
proof fn lemma_tensor_collapse(g: GateView, m: nat, i: nat, j: nat)
    requires
        forall|q: nat| q < m && q != g.target ==> bit(i, q) == bit(j, q),
    ensures
        tensor_entry(g, m, i, j) == if g.target < m {
            base_entry(g.kind, bit(i, g.target), bit(j, g.target))
        } else {
            m_one()
        },
    decreases m,
{
    if m > 0 {
        lemma_tensor_collapse(g, (m - 1) as nat, i, j);
        if m - 1 == g.target {
            lemma_mul_one_right(tensor_factor(g, (m - 1) as nat, i, j));
        } else {
            lemma_mul_one(tensor_entry(g, (m - 1) as nat, i, j));
        }
    }
}

/// A bit mismatch away from the target below `m` zeroes the whole partial
/// tensor product.
proof fn lemma_tensor_mismatch(g: GateView, m: nat, i: nat, j: nat, q0: nat)
    requires
        q0 < m,
        q0 != g.target,
        bit(i, q0) != bit(j, q0),
    ensures
        m_is_zero(tensor_entry(g, m, i, j)),
    decreases m,
{
    if q0 == m - 1 {
        crate::amp::lemma_mul_zero_left(
            tensor_factor(g, (m - 1) as nat, i, j),
            tensor_entry(g, (m - 1) as nat, i, j),
        );
    } else {
        lemma_tensor_mismatch(g, (m - 1) as nat, i, j, q0);
        lemma_mul_zero_right(
            tensor_factor(g, (m - 1) as nat, i, j),
            tensor_entry(g, (m - 1) as nat, i, j),
        );
    }
}

/// The exponent of a partial tensor product never exceeds 1: only the
/// target factor can contribute a sqrt(2) denominator.
proof fn lemma_tensor_k(g: GateView, m: nat, i: nat, j: nat)
    ensures
        tensor_entry(g, m, i, j).k <= 1,
        g.target >= m ==> tensor_entry(g, m, i, j).k == 0,
    decreases m,
{
    if m > 0 {
        lemma_tensor_k(g, (m - 1) as nat, i, j);
    }
}

/// The closed entrywise form `gate_entry` of a single-qubit expansion is,
/// as an exact value, the n-fold Kronecker product of 2x2 factors with the
/// gate's matrix at the target position and the identity elsewhere.
pub proof fn lemma_expansion_is_tensor_product(g: GateView, n: nat, i: nat, j: nat)
    requires
        gate_valid(g, n),
        g.control is None,
        i < crate::p2(n),
        j < crate::p2(n),
    ensures
        m_same(tensor_entry(g, n, i, j), gate_entry(g, n, i, j)),
{
    if eq_except(i, j, g.target) {
        lemma_tensor_collapse(g, n, i, j);
    } else {
        let q0 = choose|q: nat| q != g.target && bit(i, q) != bit(j, q);
        assert(q0 < n) by {
            if q0 >= n {
                lemma_bit_high_zero(i, n, q0);
                lemma_bit_high_zero(j, n, q0);
            }
        };
        lemma_tensor_mismatch(g, n, i, j, q0);
        lemma_tensor_k(g, n, i, j);
        lemma_cmp_zero(tensor_entry(g, n, i, j));
        lemma_cmp_zero(m_zero());
        lemma_lift_k(tensor_entry(g, n, i, j), (128 - tensor_entry(g, n, i, j).k) as nat);
        lemma_lift_k(m_zero(), 128);
    }
}

} // verus!
