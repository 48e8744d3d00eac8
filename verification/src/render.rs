use vstd::prelude::*;
use crate::amp::{Amp, AmpModel};
use crate::simulator::{State, state_m};

verus! {

// Rendering of a state: one line of comma-separated entries, one per basis
// label in ascending order, each `<re><sign><im>i: <bits>` with both parts
// printed to four decimal places and the label zero-padded to the register
// width.  The amplitudes are exact, so the decimal digits are computed by
// integer arithmetic alone: the sign of (A + B*sqrt(2)) comes from comparing
// A^2 with 2*B^2, and the scaled magnitude is rounded through an integer
// square root.  Values round half away from zero.

/// Coefficient bound under which the fixed-point rendering arithmetic fits
/// the machine integers: 2^45.
pub const RENDER_COEFF_MAX: i64 = 0x2000_0000_0000;

/// An amplitude small enough to render exactly.
pub open spec fn renderable(m: AmpModel) -> bool {
    &&& -(RENDER_COEFF_MAX as int) <= m.a <= RENDER_COEFF_MAX as int
    &&& -(RENDER_COEFF_MAX as int) <= m.b <= RENDER_COEFF_MAX as int
    &&& -(RENDER_COEFF_MAX as int) <= m.c <= RENDER_COEFF_MAX as int
    &&& -(RENDER_COEFF_MAX as int) <= m.d <= RENDER_COEFF_MAX as int
    &&& m.k <= 60
}

/// floor(log2(n)) for n >= 1, and 0 for n <= 1: the register width that a
/// state vector of length 2^n implies.
pub open spec fn flog2(n: nat) -> nat
    decreases n,
{
    if n <= 1 {
        0
    } else {
        1 + flog2(n / 2)
    }
}

/// The label `i` as `w` binary digits, most significant first.
pub open spec fn bin_str(i: nat, w: nat) -> Seq<char>
    decreases w,
{
    if w == 0 {
        Seq::empty()
    } else {
        bin_str(i / 2, (w - 1) as nat) + seq![if i % 2 == 1 { '1' } else { '0' }]
    }
}

/// One decimal digit as a character.
pub open spec fn digit_char(d: nat) -> char {
    if d == 0 {
        '0'
    } else if d == 1 {
        '1'
    } else if d == 2 {
        '2'
    } else if d == 3 {
        '3'
    } else if d == 4 {
        '4'
    } else if d == 5 {
        '5'
    } else if d == 6 {
        '6'
    } else if d == 7 {
        '7'
    } else if d == 8 {
        '8'
    } else {
        '9'
    }
}

/// `n` in decimal, without padding.
pub open spec fn dec_str(n: nat) -> Seq<char>
    decreases n,
{
    if n < 10 {
        seq![digit_char(n)]
    } else {
        dec_str(n / 10) + seq![digit_char(n % 10)]
    }
}

/// A fraction numerator below 10000 as exactly four digits.
pub open spec fn frac4_str(n: nat) -> Seq<char> {
    seq![
        digit_char(n / 1000 % 10),
        digit_char(n / 100 % 10),
        digit_char(n / 10 % 10),
        digit_char(n % 10),
    ]
}

/// A scaled magnitude `r` (the value times 10^4, rounded) in fixed-point
/// form: integer part, point, four fraction digits.
pub open spec fn fixed4_str(r: nat) -> Seq<char> {
    dec_str(r / 10000) + seq!['.'] + frac4_str(r % 10000)
}

/// The integer square root: the unique `t` with t^2 <= n < (t+1)^2.
pub open spec fn floor_sqrt(n: nat) -> nat {
    choose|t: nat| (#[trigger] (t * t)) <= n < (t + 1) * (t + 1)
}

/// floor(x * sqrt(2)) for an integer `x`, through the square root of 2*x^2.
pub open spec fn floor_sqrt2_mul(x: int) -> int {
    if x >= 0 {
        floor_sqrt((2 * x * x) as nat) as int
    } else {
        let t = floor_sqrt((2 * x * x) as nat) as int;
        if t * t == 2 * x * x {
            -t
        } else {
            -t - 1
        }
    }
}

/// The pair (A, B, m) with (A + B*sqrt(2)) / 2^m equal to
/// (x + y*sqrt(2)) / sqrt(2)^k: the even-exponent normal form of one
/// component of an amplitude.
pub open spec fn even_pair_a(x: int, y: int, k: nat) -> int {
    if k % 2 == 0 {
        x
    } else {
        2 * y
    }
}

pub open spec fn even_pair_b(x: int, y: int, k: nat) -> int {
    if k % 2 == 0 {
        y
    } else {
        x
    }
}

pub open spec fn even_pair_m(k: nat) -> nat {
    (k + 1) / 2
}

/// The sign of A + B*sqrt(2): decided by the signs of A and B, or when they
/// differ, by comparing A^2 against 2*B^2 (they are never equal unless both
/// vanish, sqrt(2) being irrational).
pub open spec fn pair_sign(aa: int, bb: int) -> int {
    if aa == 0 && bb == 0 {
        0
    } else if aa >= 0 && bb >= 0 {
        1
    } else if aa <= 0 && bb <= 0 {
        -1
    } else if aa > 0 {
        if aa * aa > 2 * (bb * bb) {
            1
        } else {
            -1
        }
    } else {
        if 2 * (bb * bb) >= aa * aa {
            1
        } else {
            -1
        }
    }
}

/// round((A + B*sqrt(2)) / 2^m * 10^4), half away from zero, for a
/// nonnegative value: the scaled magnitude of one rendered component.
pub open spec fn mag4(aa: int, bb: int, m: nat) -> nat {
    let p = aa * 10000;
    let q = bb * 10000;
    let f = floor_sqrt2_mul(2 * q);
    let n = 2 * p + crate::pow2_int(m) + f;
    let r = n / (2 * crate::pow2_int(m));
    if r >= 0 {
        r as nat
    } else {
        0
    }
}

/// Is the rendered component negative, and what is its scaled magnitude?
/// One component of an amplitude is (x + y*sqrt(2)) / sqrt(2)^k.
pub open spec fn comp_neg(x: int, y: int, k: nat) -> bool {
    pair_sign(even_pair_a(x, y, k), even_pair_b(x, y, k)) < 0
}

pub open spec fn comp_mag(x: int, y: int, k: nat) -> nat {
    let aa = even_pair_a(x, y, k);
    let bb = even_pair_b(x, y, k);
    if pair_sign(aa, bb) < 0 {
        mag4(-aa, -bb, even_pair_m(k))
    } else {
        mag4(aa, bb, even_pair_m(k))
    }
}

/// One amplitude as text: signed real part, explicit sign and magnitude of
/// the imaginary part, and the trailing `i`.
pub open spec fn amp_str(m: AmpModel) -> Seq<char> {
    let re = if comp_neg(m.a, m.b, m.k) {
        seq!['-'] + fixed4_str(comp_mag(m.a, m.b, m.k))
    } else {
        fixed4_str(comp_mag(m.a, m.b, m.k))
    };
    let sign = if comp_neg(m.c, m.d, m.k) {
        '-'
    } else {
        '+'
    };
    re + seq![sign] + fixed4_str(comp_mag(m.c, m.d, m.k)) + seq!['i']
}

/// The first `m` entries of the rendered state.
pub open spec fn render_prefix(v: Seq<AmpModel>, w: nat, m: nat) -> Seq<char>
    decreases m,
{
    if m == 0 {
        Seq::empty()
    } else {
        render_prefix(v, w, (m - 1) as nat) + amp_str(v[m - 1]) + seq![':', ' '] + bin_str(
            (m - 1) as nat,
            w,
        ) + if m < v.len() {
            seq![',', ' ']
        } else {
            Seq::empty()
        }
    }
}

/// The whole rendered state: entries for labels 0 .. len-1 in order,
/// separated by ", ".
pub open spec fn render_state(v: Seq<AmpModel>) -> Seq<char> {
    render_prefix(v, flog2(v.len()), v.len())
}

/// A value with the floor-square-root bracket is `floor_sqrt`.
proof fn lemma_floor_sqrt_is(n: nat, t: nat)
    requires
        t * t <= n,
        n < (t + 1) * (t + 1),
    ensures
        floor_sqrt(n) == t,
{
    assert(exists|u: nat| (#[trigger] (u * u)) <= n < (u + 1) * (u + 1)) by {
        assert((t * t) <= n < (t + 1) * (t + 1));
    };
    let u = floor_sqrt(n);
    assert(u * u <= n < (u + 1) * (u + 1));
    assert(u == t) by (nonlinear_arith)
        requires
            u * u <= n < (u + 1) * (u + 1),
            t * t <= n < (t + 1) * (t + 1),
            u >= 0,
            t >= 0,
    ;
}

/// The integer square root of `n`, by bisection; `n` stays far enough below
/// 2^126 that the squares involved fit a `u128`.
fn isqrt(n: u128) -> (r: u128)
    requires
        n < 0x1000_0000_0000_0000_0000_0000_0000_0000,
    ensures
        (r * r) as nat <= n as nat,
        (n as int) < (r as int + 1) * (r as int + 1),
{
    let mut lo: u128 = 0;
    let mut hi: u128 = 0x8000_0000_0000_0000;
    proof {
        assert((hi as int) * (hi as int) > n as int) by (nonlinear_arith)
            requires
                hi == 0x8000_0000_0000_0000u128,
                n < 0x1000_0000_0000_0000_0000_0000_0000_0000,
        ;
    }
    while lo + 1 < hi
        invariant
            lo < hi,
            hi <= 0x8000_0000_0000_0000,
            (lo as int) * (lo as int) <= n as int,
            (n as int) < (hi as int) * (hi as int),
        decreases hi - lo,
    {
        let mid = lo + (hi - lo) / 2;
        proof {
            assert((mid as int) * (mid as int) < 0x1_0000_0000_0000_0000_0000_0000_0000_0000)
                by (nonlinear_arith)
                requires
                    mid < 0x8000_0000_0000_0000u128,
            ;
        }
        if mid * mid <= n {
            lo = mid;
        } else {
            hi = mid;
        }
    }
    lo
}

/// Magnitude bound for products in the rendering arithmetic.
proof fn lemma_render_mul_bound(x: int, y: int, bx: int, by: int)
    by (nonlinear_arith)
    requires
        -bx <= x <= bx,
        -by <= y <= by,
        0 <= bx,
        0 <= by,
    ensures
        -(bx * by) <= x * y <= bx * by,
{
}

/// Every natural number has a floor square root.
proof fn lemma_floor_sqrt_exists(n: nat)
    ensures
        floor_sqrt(n) * floor_sqrt(n) <= n,
        n < (floor_sqrt(n) + 1) * (floor_sqrt(n) + 1),
    decreases n,
{
    if n == 0 {
        assert(exists|u: nat| (#[trigger] (u * u)) <= n < (u + 1) * (u + 1)) by {
            assert((0 as nat) * (0 as nat) <= n < (0 + 1) * (0 + 1)) by (nonlinear_arith)
                requires
                    n == 0,
            ;
        };
    } else {
        lemma_floor_sqrt_exists((n - 1) as nat);
        let t = floor_sqrt((n - 1) as nat);
        if (t + 1) * (t + 1) <= n {
            assert(exists|u: nat| (#[trigger] (u * u)) <= n < (u + 1) * (u + 1)) by {
                assert((t + 1) * (t + 1) <= n < (t + 2) * (t + 2)) by (nonlinear_arith)
                    requires
                        (t + 1) * (t + 1) <= n,
                        (n - 1) < (t + 1) * (t + 1),
                        t >= 0,
                ;
            };
        } else {
            assert(exists|u: nat| (#[trigger] (u * u)) <= n < (u + 1) * (u + 1)) by {
                assert(t * t <= n < (t + 1) * (t + 1));
            };
        }
    }
}

/// The square root of 8 q^2 stays below 2^62 for the coefficient sizes the
/// renderer accepts, and `floor_sqrt2_mul(2q)` is within one of it.
fn sqrt2_scaled(q: i128) -> (f: i128)
    requires
        -0x9c4_0000_0000_0000 <= q <= 0x9c4_0000_0000_0000,
    ensures
        f as int == floor_sqrt2_mul(2 * (q as int)),
        -0x4000_0000_0000_0001 <= f as int <= 0x4000_0000_0000_0000,
{
    proof {
        lemma_render_mul_bound(q as int, q as int, 0x9c4_0000_0000_0000, 0x9c4_0000_0000_0000);
        assert((q as int) * (q as int) >= 0) by (nonlinear_arith);
        assert(8 * (0x9c4_0000_0000_0000 * 0x9c4_0000_0000_0000)
            < 0x1000_0000_0000_0000_0000_0000_0000_0000) by (nonlinear_arith);
    }
    let sq: u128 = (8 * (q * q)) as u128;
    let t = isqrt(sq);
    proof {
        assert(2 * (2 * (q as int)) * (2 * (q as int)) == 8 * ((q as int) * (q as int)))
            by (nonlinear_arith);
        lemma_floor_sqrt_is(sq as nat, t as nat);
        assert((t as int) < 0x4000_0000_0000_0000) by (nonlinear_arith)
            requires
                (t as int) * (t as int) <= sq as int,
                (sq as int) < 0x1000_0000_0000_0000_0000_0000_0000_0000,
                (t as int) >= 0,
        ;
    }
    if q >= 0 {
        t as i128
    } else {
        if (t as u128) * (t as u128) == sq {
            -(t as i128)
        } else {
            -(t as i128) - 1
        }
    }
}

/// The scaled numerator of a nonnegative component is nonnegative, so
/// rounding by unsigned division is the true rounding.
proof fn lemma_mag_numer_nonneg(aa: int, bb: int, m: nat)
    requires
        pair_sign(aa, bb) >= 0,
        -0x9c4_0000_0000_0000 <= bb * 10000 <= 0x9c4_0000_0000_0000,
    ensures
        2 * (aa * 10000) + crate::pow2_int(m) + floor_sqrt2_mul(2 * (bb * 10000)) >= 0,
{
    let p = aa * 10000;
    let q = bb * 10000;
    let f = floor_sqrt2_mul(2 * q);
    crate::lemma_pow2_int_pos(m);
    assert(2 * (2 * q) * (2 * q) == 8 * (q * q)) by (nonlinear_arith);
    assert(8 * (q * q) >= 0) by (nonlinear_arith);
    lemma_floor_sqrt_exists((2 * (2 * q) * (2 * q)) as nat);
    let t = floor_sqrt((2 * (2 * q) * (2 * q)) as nat) as int;
    if aa >= 0 && bb >= 0 {
        assert(p >= 0) by (nonlinear_arith)
            requires
                aa >= 0,
                p == aa * 10000,
        ;
        assert(q >= 0) by (nonlinear_arith)
            requires
                bb >= 0,
                q == bb * 10000,
        ;
        assert(f >= 0);
    } else if aa > 0 {
        // aa > 0 > bb and aa^2 > 2 bb^2: the positive part dominates
        assert(q < 0) by (nonlinear_arith)
            requires
                bb < 0,
                q == bb * 10000,
        ;
        assert(t < 2 * p) by (nonlinear_arith)
            requires
                t * t <= 8 * (q * q),
                aa * aa > 2 * (bb * bb),
                p == aa * 10000,
                q == bb * 10000,
                t >= 0,
                aa > 0,
        ;
        assert(f >= -t - 1);
    } else {
        // bb > 0 > aa and 2 bb^2 > aa^2
        assert(q > 0) by (nonlinear_arith)
            requires
                bb > 0,
                q == bb * 10000,
        ;
        assert(t >= -2 * p) by (nonlinear_arith)
            requires
                8 * (q * q) < (t + 1) * (t + 1),
                2 * (bb * bb) >= aa * aa,
                p == aa * 10000,
                q == bb * 10000,
                t >= 0,
                aa < 0,
                bb > 0,
        ;
        assert(f == t);
    }
}

/// The sign of aa + bb*sqrt(2), executably.
fn pair_sign_exec(aa: i128, bb: i128) -> (s: i32)
    requires
        -0x4000_0000_0000_0000 <= aa <= 0x4000_0000_0000_0000,
        -0x4000_0000_0000_0000 <= bb <= 0x4000_0000_0000_0000,
    ensures
        s as int == pair_sign(aa as int, bb as int),
{
    proof {
        lemma_render_mul_bound(
            aa as int,
            aa as int,
            0x4000_0000_0000_0000,
            0x4000_0000_0000_0000,
        );
        lemma_render_mul_bound(
            bb as int,
            bb as int,
            0x4000_0000_0000_0000,
            0x4000_0000_0000_0000,
        );
    }
    if aa == 0 && bb == 0 {
        0
    } else if aa >= 0 && bb >= 0 {
        1
    } else if aa <= 0 && bb <= 0 {
        -1
    } else if aa > 0 {
        if aa * aa > 2 * (bb * bb) {
            1
        } else {
            -1
        }
    } else {
        if 2 * (bb * bb) >= aa * aa {
            1
        } else {
            -1
        }
    }
}

/// One component of an amplitude, rendered to its sign and scaled magnitude.
fn comp_parts(x: i64, y: i64, k: u32) -> (r: (bool, u64))
    requires
        -RENDER_COEFF_MAX <= x <= RENDER_COEFF_MAX,
        -RENDER_COEFF_MAX <= y <= RENDER_COEFF_MAX,
        k <= 60,
    ensures
        r.0 == comp_neg(x as int, y as int, k as nat),
        r.1 as nat == comp_mag(x as int, y as int, k as nat),
{
    let (aa, bb): (i128, i128) = if k % 2 == 0 {
        (x as i128, y as i128)
    } else {
        (2 * (y as i128), x as i128)
    };
    let m: u32 = (k + 1) / 2;
    proof {
        assert(aa as int == even_pair_a(x as int, y as int, k as nat));
        assert(bb as int == even_pair_b(x as int, y as int, k as nat));
        assert(m as nat == even_pair_m(k as nat));
        lemma_render_mul_bound(aa as int, aa as int, 0x4000_0000_0000, 0x4000_0000_0000);
        lemma_render_mul_bound(bb as int, bb as int, 0x4000_0000_0000, 0x4000_0000_0000);
    }
    let sgn = pair_sign_exec(aa, bb);
    let (na, nb): (i128, i128) = if sgn < 0 {
        (-aa, -bb)
    } else {
        (aa, bb)
    };
    proof {
        if sgn < 0 {
            assert((-(aa as int)) * (-(aa as int)) == (aa as int) * (aa as int))
                by (nonlinear_arith);
            assert((-(bb as int)) * (-(bb as int)) == (bb as int) * (bb as int))
                by (nonlinear_arith);
        }
        assert(pair_sign(na as int, nb as int) >= 0);
    }
    let p: i128 = na * 10000;
    let q: i128 = nb * 10000;
    proof {
        lemma_render_mul_bound(na as int, 10000, 0x4000_0000_0000, 10000);
        lemma_render_mul_bound(nb as int, 10000, 0x4000_0000_0000, 10000);
        assert(0x4000_0000_0000 * 10000 == 0x9c4_0000_0000_0000) by (nonlinear_arith);
    }
    let f: i128 = sqrt2_scaled(q);
    proof {
        crate::lemma_p2_le(m as nat, 31);
        crate::lemma_p2_pow2_int(31);
        crate::lemma_pow2_int_values();
        assert(usize::MAX >= 0xffff_ffff);
    }
    let pm: i128 = crate::pow2_usize(m as usize) as i128;
    proof {
        crate::lemma_p2_pow2_int(m as nat);
        crate::lemma_pow2_int_pos(m as nat);
        crate::lemma_pow2_int_le(m as nat, 31);
        lemma_mag_numer_nonneg(na as int, nb as int, m as nat);
    }
    let numer: i128 = 2 * p + pm + f;
    let denom: i128 = 2 * pm;
    let r4: u128 = (numer as u128) / (denom as u128);
    proof {
        assert(r4 as int == (2 * (na as int * 10000) + crate::pow2_int(m as nat) + f as int) / (2
            * crate::pow2_int(m as nat)));
        assert(r4 as int <= numer as int) by {
            vstd::arithmetic::div_mod::lemma_div_is_ordered_by_denominator(
                numer as int,
                1,
                denom as int,
            );
            assert(numer as int / 1 == numer as int) by (nonlinear_arith);
        };
    }
    (sgn < 0, r4 as u64)
}

/// Append one decimal digit character.
fn push_digit(s: &mut String, d: u64)
    requires
        d < 10,
    ensures
        final(s)@ == old(s)@ + seq![digit_char(d as nat)],
{
    proof {
        reveal_strlit("0");
        reveal_strlit("1");
        reveal_strlit("2");
        reveal_strlit("3");
        reveal_strlit("4");
        reveal_strlit("5");
        reveal_strlit("6");
        reveal_strlit("7");
        reveal_strlit("8");
        reveal_strlit("9");
    }
    if d == 0 {
        s.append("0");
    } else if d == 1 {
        s.append("1");
    } else if d == 2 {
        s.append("2");
    } else if d == 3 {
        s.append("3");
    } else if d == 4 {
        s.append("4");
    } else if d == 5 {
        s.append("5");
    } else if d == 6 {
        s.append("6");
    } else if d == 7 {
        s.append("7");
    } else if d == 8 {
        s.append("8");
    } else {
        s.append("9");
    }
    proof {
        assert(final(s)@ =~= old(s)@ + seq![digit_char(d as nat)]);
    }
}

/// Append `n` in decimal.
fn push_dec(s: &mut String, n: u64)
    ensures
        final(s)@ == old(s)@ + dec_str(n as nat),
    decreases n,
{
    if n < 10 {
        push_digit(s, n);
    } else {
        push_dec(s, n / 10);
        push_digit(s, n % 10);
        proof {
            assert(old(s)@ + dec_str((n / 10) as nat) + seq![digit_char((n % 10) as nat)] =~= old(
                s,
            )@ + dec_str(n as nat));
        }
    }
}

/// Append a scaled magnitude in fixed four-decimal form.
fn push_fixed4(s: &mut String, r: u64)
    ensures
        final(s)@ == old(s)@ + fixed4_str(r as nat),
{
    push_dec(s, r / 10000);
    proof {
        reveal_strlit(".");
    }
    s.append(".");
    let frac = r % 10000;
    push_digit(s, frac / 1000 % 10);
    push_digit(s, frac / 100 % 10);
    push_digit(s, frac / 10 % 10);
    push_digit(s, frac % 10);
    proof {
        assert((r % 10000) as nat == (r as nat) % 10000);
        assert(final(s)@ =~= old(s)@ + fixed4_str(r as nat));
    }
}

/// Append the binary label of `i`, zero-padded to `w` digits, most
/// significant first.
fn push_bin(s: &mut String, i: usize, w: usize)
    ensures
        final(s)@ == old(s)@ + bin_str(i as nat, w as nat),
    decreases w,
{
    if w > 0 {
        push_bin(s, i / 2, w - 1);
        if i % 2 == 1 {
            push_digit(s, 1);
        } else {
            push_digit(s, 0);
        }
        proof {
            assert(final(s)@ =~= old(s)@ + bin_str(i as nat, w as nat));
        }
    }
}

/// Append one amplitude in `<re><sign><im>i` form.
fn push_amp(s: &mut String, x: &Amp)
    requires
        renderable(x@),
    ensures
        final(s)@ == old(s)@ + amp_str(x@),
{
    proof {
        reveal_strlit("-");
        reveal_strlit("+");
        reveal_strlit("i");
    }
    let (rneg, rmag) = comp_parts(x.a, x.b, x.k);
    if rneg {
        s.append("-");
    }
    push_fixed4(s, rmag);
    let (ineg, imag) = comp_parts(x.c, x.d, x.k);
    if ineg {
        s.append("-");
    } else {
        s.append("+");
    }
    push_fixed4(s, imag);
    s.append("i");
    proof {
        assert(final(s)@ =~= old(s)@ + amp_str(x@));
    }
}

/// The register width implied by the state length: floor(log2(len)).
fn width_of(len: usize) -> (w: usize)
    ensures
        w as nat == flog2(len as nat),
{
    let mut l = len;
    let mut w: usize = 0;
    while l > 1
        invariant
            w as nat <= flog2(len as nat),
            flog2(len as nat) == w as nat + flog2(l as nat),
        decreases l,
    {
        proof {
            assert(flog2(l as nat) == 1 + flog2((l / 2) as nat));
            lemma_flog2_le(len as nat);
        }
        l = l / 2;
        w = w + 1;
    }
    w
}

/// The binary logarithm never exceeds its argument.
proof fn lemma_flog2_le(n: nat)
    ensures
        flog2(n) <= n,
    decreases n,
{
    if n > 1 {
        lemma_flog2_le(n / 2);
    }
}

impl State {
    /// Render the state as `"<amplitude>: <label>"` entries joined by `", "`,
    /// labels ascending and zero-padded to the register width, amplitudes to
    /// four decimal places.  A pure view of the state; nothing is mutated.
    ///
    /// The precondition is what exact fixed-point rendering in machine words
    /// forces: coefficients within `RENDER_COEFF_MAX`.
    pub fn print(&self) -> (r: String)
        requires
            forall|i: int|
                0 <= i < self.coefs@.len() ==> renderable((#[trigger] self.coefs@[i])@),
        ensures
            r@ == render_state(state_m(self.coefs@)),
    {
        let ghost vm = state_m(self.coefs@);
        let len = self.coefs.len();
        let w = width_of(len);
        let mut s = String::new();
        let mut i: usize = 0;
        proof {
            reveal_strlit(": ");
            reveal_strlit(", ");
        }
        while i < len
            invariant
                i <= len,
                len == self.coefs@.len(),
                w as nat == flog2(len as nat),
                vm == state_m(self.coefs@),
                forall|j: int|
                    0 <= j < self.coefs@.len() ==> renderable((#[trigger] self.coefs@[j])@),
                s@ == render_prefix(vm, w as nat, i as nat),
                ": "@ == seq![':', ' '],
                ", "@ == seq![',', ' '],
            decreases len - i,
        {
            push_amp(&mut s, &self.coefs[i]);
            s.append(": ");
            push_bin(&mut s, i, w);
            if i + 1 < len {
                s.append(", ");
            }
            proof {
                assert(vm[i as int] == self.coefs@[i as int]@);
                assert(s@ =~= render_prefix(vm, w as nat, (i + 1) as nat));
            }
            i = i + 1;
        }
        s
    }
}


/// A gate descriptor as text: a letter name, then the qubits acted on
/// in parentheses, control first for ControlledNot.
pub open spec fn gate_label(g: crate::gate::GateView) -> Seq<char> {
    let name = match g.kind {
        crate::gate::GateKind::PauliX => seq!['X'],
        crate::gate::GateKind::PauliY => seq!['Y'],
        crate::gate::GateKind::PauliZ => seq!['Z'],
        crate::gate::GateKind::Hadamard => seq!['H'],
        crate::gate::GateKind::ControlledNot => seq!['C', 'X'],
    };
    match g.control {
        None => name + seq!['('] + dec_str(g.target) + seq![')'],
        Some(c) => name + seq!['('] + dec_str(c) + seq![','] + dec_str(g.target) + seq![')'],
    }
}

impl crate::gate::Gate {
    /// This descriptor as text, e.g. `X(0)` or `CX(0,3)`.
    pub fn describe(&self) -> (r: String)
        ensures
            r@ == gate_label(self@),
    {
        proof {
            reveal_strlit("X");
            reveal_strlit("Y");
            reveal_strlit("Z");
            reveal_strlit("H");
            reveal_strlit("CX");
            reveal_strlit("(");
            reveal_strlit(")");
            reveal_strlit(",");
        }
        let mut s = String::new();
        match self.kind {
            crate::gate::GateKind::PauliX => s.append("X"),
            crate::gate::GateKind::PauliY => s.append("Y"),
            crate::gate::GateKind::PauliZ => s.append("Z"),
            crate::gate::GateKind::Hadamard => s.append("H"),
            crate::gate::GateKind::ControlledNot => s.append("CX"),
        }
        s.append("(");
        match self.control {
            None => {
                push_dec(&mut s, self.target as u64);
            },
            Some(c) => {
                push_dec(&mut s, c as u64);
                s.append(",");
                push_dec(&mut s, self.target as u64);
            },
        }
        s.append(")");
        proof {
            assert(s@ =~= gate_label(self@));
        }
        s
    }
}

} // verus!
