use vstd::prelude::*;
use vstd::arithmetic::div_mod::lemma_basic_div;
use vstd::arithmetic::div_mod::lemma_div_denominator;
use vstd::arithmetic::div_mod::lemma_div_multiples_vanish_fancy;
use vstd::arithmetic::div_mod::lemma_fundamental_div_mod;
use vstd::arithmetic::div_mod::lemma_mod_bound;
use vstd::arithmetic::div_mod::lemma_mod_breakdown;
use vstd::arithmetic::div_mod::lemma_mod_mod;
use vstd::arithmetic::div_mod::lemma_mod_multiples_vanish;
use vstd::arithmetic::div_mod::lemma_multiply_divide_lt;
use vstd::arithmetic::div_mod::lemma_small_mod;

verus! {

// Qubit-index convention, fixed once for the whole library: qubit `q` of an
// `n`-qubit register is the bit of weight 2^q in the basis label.  Qubit 0 is
// the least significant bit, so in the rendered `n`-bit binary label it is the
// rightmost character.  Both the single-qubit tensor expansion and the
// controlled-gate bit predicate read bits through the functions of this
// module, so the two cannot drift apart.

/// Bit `q` of basis label `i` (0 or 1): the state of qubit `q` in the
/// computational-basis state labelled `i`.
pub open spec fn bit(i: nat, q: nat) -> nat {
    (i / crate::p2(q)) % 2
}

/// `i` and `j` agree on every qubit except possibly `t`.
pub open spec fn eq_except(i: nat, j: nat, t: nat) -> bool {
    forall|q: nat| q != t ==> bit(i, q) == bit(j, q)
}

/// `i` and `j` agree on every qubit except possibly `c` and `t`.
pub open spec fn eq_except2(i: nat, j: nat, c: nat, t: nat) -> bool {
    forall|q: nat| q != c && q != t ==> bit(i, q) == bit(j, q)
}

/// The label `i` with qubit `t` forced to `b` and every other qubit kept.
pub open spec fn set_bit(i: nat, t: nat, b: nat) -> nat {
    ((i / crate::p2(t + 1)) * crate::p2(t + 1) + b * crate::p2(t) + (i % crate::p2(t))) as nat
}

/// 2^(i+j) == 2^i * 2^j over the label counts.
pub proof fn lemma_p2_adds(i: nat, j: nat)
    ensures
        crate::p2(i + j) == crate::p2(i) * crate::p2(j),
{
    crate::lemma_p2_pow2_int(i + j);
    crate::lemma_p2_pow2_int(i);
    crate::lemma_p2_pow2_int(j);
    crate::lemma_pow2_int_adds(i, j);
}

/// Labels below 2^n have zero bits at positions `n` and above.
pub proof fn lemma_bit_high_zero(i: nat, n: nat, q: nat)
    requires
        i < crate::p2(n),
        q >= n,
    ensures
        bit(i, q) == 0,
{
    crate::lemma_p2_le(n, q);
    crate::lemma_p2_pos(q);
    lemma_basic_div(i as int, crate::p2(q) as int);
}

/// Dividing by 2^s shifts the bit positions down by `s`.
pub proof fn lemma_bit_div(i: nat, s: nat, q: nat)
    ensures
        bit(i / crate::p2(s), q) == bit(i, q + s),
{
    crate::lemma_p2_pos(s);
    crate::lemma_p2_pos(q);
    lemma_p2_adds(s, q);
    lemma_div_denominator(i as int, crate::p2(s) as int, crate::p2(q) as int);
}

/// Reducing modulo 2^t keeps the bits below position `t`.
pub proof fn lemma_bit_mod(i: nat, t: nat, q: nat)
    requires
        q < t,
    ensures
        bit(i % crate::p2(t), q) == bit(i, q),
{
    let y = crate::p2(q) as int;
    let z = crate::p2((t - q) as nat) as int;
    crate::lemma_p2_pos(q);
    crate::lemma_p2_pos((t - q) as nat);
    crate::lemma_p2_pos((t - q - 1) as nat);
    lemma_p2_adds(q, (t - q) as nat);
    assert(crate::p2(t) as int == y * z);
    lemma_mod_breakdown(i as int, y, z);
    // (i % 2^t) / 2^q == (i / 2^q) % z
    lemma_mod_bound(i as int / y, z);
    lemma_div_multiples_vanish_fancy((i as int / y) % z, i as int % y, y);
    lemma_mod_bound(i as int, y);
    assert(y * ((i as int / y) % z) + i as int % y == (i as int % (y * z)));
    assert((i as int % (y * z)) / y == (i as int / y) % z);
    // (x % z) % 2 == x % 2 because z is a positive power of two
    assert(z == 2 * (crate::p2((t - q - 1) as nat) as int));
    lemma_mod_mod(i as int / y, 2, crate::p2((t - q - 1) as nat) as int);
}

/// The standard split of a label around bit `t`:
/// i == hi * 2^(t+1) + bit(i,t) * 2^t + lo  with  lo == i % 2^t.
pub proof fn lemma_bit_decomp(i: nat, t: nat)
    ensures
        i as int == (i / crate::p2(t + 1)) as int * (crate::p2(t + 1) as int) + (bit(i, t) as int)
            * (crate::p2(t) as int) + (i % crate::p2(t)) as int,
{
    let p = crate::p2(t) as int;
    let p1 = crate::p2(t + 1) as int;
    crate::lemma_p2_pos(t);
    assert(p1 == 2 * p);
    lemma_fundamental_div_mod(i as int, p);
    lemma_fundamental_div_mod(i as int / p, 2);
    lemma_div_denominator(i as int, p, 2);
    assert(i as int / p1 == (i as int / p) / 2) by {
        assert(p * 2 == p1) by (nonlinear_arith)
            requires
                p1 == 2 * p,
        ;
    };
    assert(i as int == p * (2 * (i as int / p1) + (i as int / p) % 2) + (i as int % p));
    assert(p * (2 * (i as int / p1) + (i as int / p) % 2) == p1 * (i as int / p1) + ((i as int / p)
        % 2) * p) by (nonlinear_arith)
        requires
            p1 == 2 * p,
    ;
}

/// Reading the parts of a label assembled from `hi`, one bit `b`, and `lo`.
pub proof fn lemma_compose_label(hi: nat, b: nat, lo: nat, t: nat)
    requires
        lo < crate::p2(t),
        b < 2,
    ensures
        (hi * crate::p2(t + 1) + b * crate::p2(t) + lo) as nat / crate::p2(t + 1) == hi,
        bit((hi * crate::p2(t + 1) + b * crate::p2(t) + lo) as nat, t) == b,
        (hi * crate::p2(t + 1) + b * crate::p2(t) + lo) as nat % crate::p2(t) == lo,
{
    let p = crate::p2(t) as int;
    let p1 = crate::p2(t + 1) as int;
    crate::lemma_p2_pos(t);
    assert(p1 == 2 * p);
    let j = hi as int * p1 + b as int * p + lo as int;
    assert(b as int * p + lo < p1) by (nonlinear_arith)
        requires
            b < 2,
            lo < p,
            p1 == 2 * p,
            p > 0,
    ;
    assert(j == p1 * hi as int + (b as int * p + lo as int)) by (nonlinear_arith)
        requires
            j == hi as int * p1 + b as int * p + lo as int,
    ;
    lemma_div_multiples_vanish_fancy(hi as int, b as int * p + lo as int, p1);
    assert(j / p1 == hi);
    // j / p == 2 * hi + b, so bit t of j is b
    assert(j == p * (2 * hi as int + b as int) + lo) by (nonlinear_arith)
        requires
            p1 == 2 * p,
            j == hi as int * p1 + b as int * p + lo as int,
    ;
    lemma_div_multiples_vanish_fancy(2 * hi as int + b as int, lo as int, p);
    assert(j / p == 2 * hi as int + b as int);
    lemma_mod_multiples_vanish(hi as int, b as int, 2);
    lemma_small_mod(b, 2);
    assert((2 * hi as int + b as int) % 2 == b);
    lemma_mod_multiples_vanish(2 * hi as int + b as int, lo as int, p);
    lemma_small_mod(lo, crate::p2(t));
    assert(j % p == lo);
}

/// `set_bit` does what its name says: qubit `t` becomes `b`, the other qubits
/// keep their state, the label stays below 2^n, and setting a bit to its
/// current state is the identity.
pub proof fn lemma_set_bit(i: nat, t: nat, b: nat, n: nat)
    requires
        i < crate::p2(n),
        t < n,
        b < 2,
    ensures
        set_bit(i, t, b) < crate::p2(n),
        bit(set_bit(i, t, b), t) == b,
        forall|q: nat| q != t ==> bit(set_bit(i, t, b), q) == bit(i, q),
        b == bit(i, t) ==> set_bit(i, t, b) == i,
{
    let p = crate::p2(t) as int;
    let p1 = crate::p2(t + 1) as int;
    crate::lemma_p2_pos(t);
    assert(p1 == 2 * p);
    let hi = i / crate::p2(t + 1);
    let lo = i % crate::p2(t);
    lemma_mod_bound(i as int, p);
    let j = set_bit(i, t, b);
    assert(j as int == hi as int * p1 + b as int * p + lo as int);
    lemma_compose_label(hi, b, lo, t);
    assert(bit(j, t) == b);
    assert((b as int * p + lo as int) < p1) by (nonlinear_arith)
        requires
            b < 2,
            (lo as int) < p,
            p1 == 2 * p,
            p > 0,
    ;
    assert forall|q: nat| q != t implies bit(j, q) == bit(i, q) by {
        if q < t {
            lemma_bit_mod(j, t, q);
            lemma_bit_mod(i, t, q);
        } else {
            lemma_bit_div(j, t + 1, (q - t - 1) as nat);
            lemma_bit_div(i, t + 1, (q - t - 1) as nat);
            assert(bit(j / crate::p2(t + 1), (q - t - 1) as nat) == bit(i / crate::p2(t + 1), (q - t
                - 1) as nat));
        }
    };
    // range: hi < 2^(n-t-1), so j < (hi+1) * 2^(t+1) <= 2^n
    lemma_p2_adds(t + 1, (n - t - 1) as nat);
    crate::lemma_p2_pos((n - t - 1) as nat);
    lemma_multiply_divide_lt(i as int, p1, crate::p2((n - t - 1) as nat) as int);
    assert((hi as int) < (crate::p2((n - t - 1) as nat) as int));
    assert((j as int) < (hi as int + 1) * p1) by (nonlinear_arith)
        requires
            j as int == hi as int * p1 + b as int * p + lo as int,
            (b as int * p + lo as int) < p1,
            p1 > 0,
    ;
    assert((hi as int + 1) * p1 <= crate::p2(n)) by (nonlinear_arith)
        requires
            hi as int + 1 <= crate::p2((n - t - 1) as nat) as int,
            p1 > 0,
            crate::p2(n) == crate::p2(t + 1) * crate::p2((n - t - 1) as nat),
            p1 == crate::p2(t + 1) as int,
    ;
    // identity case
    lemma_bit_decomp(i, t);
    assert(b == bit(i, t) ==> j == i);
}

/// Two labels below 2^n with the same qubit states are the same label.
pub proof fn lemma_label_ext(i: nat, j: nat, n: nat)
    requires
        i < crate::p2(n),
        j < crate::p2(n),
        forall|q: nat| q < n ==> bit(i, q) == bit(j, q),
    ensures
        i == j,
    decreases n,
{
    if n == 0 {
        assert(i == 0 && j == 0);
    } else {
        crate::lemma_p2_pos(0);
        assert(crate::p2(0) == 1);
        assert(i / 1 == i) by (nonlinear_arith);
        assert(j / 1 == j) by (nonlinear_arith);
        assert(bit(i, 0) == i % 2);
        assert(bit(j, 0) == j % 2);
        let ih = i / 2;
        let jh = j / 2;
        assert forall|q: nat| q < n - 1 implies #[trigger] bit(ih, q) == bit(jh, q) by {
            assert(crate::p2(1) == 2);
            lemma_bit_div(i, 1, q);
            lemma_bit_div(j, 1, q);
            assert(bit(i, q + 1) == bit(j, q + 1));
        };
        assert(ih < crate::p2((n - 1) as nat) && jh < crate::p2((n - 1) as nat)) by {
            lemma_multiply_divide_lt(i as int, 2, crate::p2((n - 1) as nat) as int);
            lemma_multiply_divide_lt(j as int, 2, crate::p2((n - 1) as nat) as int);
        };
        lemma_label_ext(ih, jh, (n - 1) as nat);
        lemma_fundamental_div_mod(i as int, 2);
        lemma_fundamental_div_mod(j as int, 2);
        assert(bit(i, 0) == bit(j, 0));
    }
}

/// A label that agrees with `i` everywhere but at `t` is `i` with qubit `t`
/// set to that label's own bit: rows of a single-qubit expansion have at most
/// two candidate columns.
pub proof fn lemma_eq_except_form(i: nat, l: nat, t: nat, n: nat)
    requires
        i < crate::p2(n),
        l < crate::p2(n),
        t < n,
        eq_except(i, l, t),
    ensures
        l == set_bit(i, t, bit(l, t)),
{
    let m = crate::p2(t) as int;
    crate::lemma_p2_pos(t);
    lemma_mod_bound(l as int, m);
    assert(bit(l, t) < 2) by {
        lemma_mod_bound((l / crate::p2(t)) as int, 2);
    };
    lemma_set_bit(i, t, bit(l, t), n);
    lemma_label_ext(l, set_bit(i, t, bit(l, t)), n);
}

} // verus!
