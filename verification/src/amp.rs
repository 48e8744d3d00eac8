use vstd::prelude::*;

verus! {

// An amplitude is an exact complex number of the form
//
//     (a + b*sqrt(2) + (c + d*sqrt(2))*i) / sqrt(2)^k
//
// with integer coefficients `a`, `b`, `c`, `d` and a nonnegative exponent `k`.
// Every entry of the supported gate matrices (0, 1, -1, i, -i, 1/sqrt(2),
// -1/sqrt(2)) lies in this ring, so states reachable by simulation are
// represented without rounding.  Two representations denote the same complex
// number when lifting both to a common exponent (multiplying numerators by
// sqrt(2) per step) makes them coincide; `m_cmp` below is that comparison.

/// Largest coefficient magnitude a well-formed amplitude may hold: 2^62 - 1.
/// Keeping coefficients below 2^62 lets all intermediate products of the
/// exact arithmetic fit in `i128` without overflow.
pub const AMP_COEFF_MAX: i64 = 0x3fff_ffff_ffff_ffff;

/// Largest exponent `k` a well-formed amplitude may hold.
pub const AMP_EXP_MAX: u32 = 60;

/// An exact complex amplitude; see the module comment for the encoding.
#[derive(Clone, Copy, PartialEq, Debug)]
pub struct Amp {
    /// rational part of the real component
    pub a: i64,
    /// sqrt(2) part of the real component
    pub b: i64,
    /// rational part of the imaginary component
    pub c: i64,
    /// sqrt(2) part of the imaginary component
    pub d: i64,
    /// denominator exponent: the number is divided by sqrt(2)^k
    pub k: u32,
}

/// The mathematical model of an amplitude: the same encoding over
/// unbounded integers.
pub ghost struct AmpModel {
    pub a: int,
    pub b: int,
    pub c: int,
    pub d: int,
    pub k: nat,
}

impl View for Amp {
    type V = AmpModel;

    open spec fn view(&self) -> AmpModel {
        AmpModel {
            a: self.a as int,
            b: self.b as int,
            c: self.c as int,
            d: self.d as int,
            k: self.k as nat,
        }
    }
}

/// A representation the executable arithmetic accepts: coefficients within
/// `AMP_COEFF_MAX` and exponent within `AMP_EXP_MAX`.
pub open spec fn amp_wf(m: AmpModel) -> bool {
    &&& -(AMP_COEFF_MAX as int) <= m.a <= AMP_COEFF_MAX as int
    &&& -(AMP_COEFF_MAX as int) <= m.b <= AMP_COEFF_MAX as int
    &&& -(AMP_COEFF_MAX as int) <= m.c <= AMP_COEFF_MAX as int
    &&& -(AMP_COEFF_MAX as int) <= m.d <= AMP_COEFF_MAX as int
    &&& m.k <= AMP_EXP_MAX as nat
}

pub open spec fn m_zero() -> AmpModel {
    AmpModel { a: 0, b: 0, c: 0, d: 0, k: 0 }
}

pub open spec fn m_one() -> AmpModel {
    AmpModel { a: 1, b: 0, c: 0, d: 0, k: 0 }
}

/// Multiplying numerator and denominator by sqrt(2): the denominator exponent
/// rises by one and (x + y*sqrt(2)) becomes (2*y + x*sqrt(2)) in each
/// component.  The value denoted is unchanged.
pub open spec fn m_step(m: AmpModel) -> AmpModel {
    AmpModel { a: 2 * m.b, b: m.a, c: 2 * m.d, d: m.c, k: m.k + 1 }
}

/// `j` applications of `m_step`: the same value at exponent `m.k + j`.
pub open spec fn m_lift(m: AmpModel, j: nat) -> AmpModel
    decreases j,
{
    if j == 0 {
        m
    } else {
        m_step(m_lift(m, (j - 1) as nat))
    }
}

/// Exact addition: lift both operands to the larger exponent and add
/// coefficients.
pub open spec fn m_add(x: AmpModel, y: AmpModel) -> AmpModel {
    let kk = if x.k >= y.k {
        x.k
    } else {
        y.k
    };
    let xx = m_lift(x, (kk - x.k) as nat);
    let yy = m_lift(y, (kk - y.k) as nat);
    AmpModel { a: xx.a + yy.a, b: xx.b + yy.b, c: xx.c + yy.c, d: xx.d + yy.d, k: kk }
}

/// Exact multiplication: complex product over Z[sqrt(2)], exponents add.
pub open spec fn m_mul(x: AmpModel, y: AmpModel) -> AmpModel {
    AmpModel {
        a: x.a * y.a + 2 * x.b * y.b - x.c * y.c - 2 * x.d * y.d,
        b: x.a * y.b + x.b * y.a - x.c * y.d - x.d * y.c,
        c: x.a * y.c + x.c * y.a + 2 * x.b * y.d + 2 * x.d * y.b,
        d: x.a * y.d + x.d * y.a + x.b * y.c + x.c * y.b,
        k: x.k + y.k,
    }
}

/// Complex conjugate: the imaginary coefficients change sign.
pub open spec fn m_conj(m: AmpModel) -> AmpModel {
    AmpModel { a: m.a, b: m.b, c: -m.c, d: -m.d, k: m.k }
}

/// All four numerator coefficients are zero: the value is the complex zero,
/// whatever the exponent.
pub open spec fn m_is_zero(m: AmpModel) -> bool {
    m.a == 0 && m.b == 0 && m.c == 0 && m.d == 0
}

/// The canonical comparison form: the representation lifted to the fixed
/// exponent 128, which is above any exponent the library produces.  Two
/// amplitudes denote the same complex number exactly when their comparison
/// forms are equal.
pub open spec fn m_cmp(m: AmpModel) -> AmpModel
    recommends
        m.k <= 128,
{
    m_lift(m, (128 - m.k) as nat)
}

/// Equality of denoted values (for representations with exponent <= 128).
pub open spec fn m_same(x: AmpModel, y: AmpModel) -> bool {
    m_cmp(x) == m_cmp(y)
}

/// Lifting in two stages is the same as lifting once.
pub proof fn lemma_lift_compose(m: AmpModel, i: nat, j: nat)
    ensures
        m_lift(m, i + j) == m_lift(m_lift(m, i), j),
    decreases j,
{
    if j > 0 {
        lemma_lift_compose(m, i, (j - 1) as nat);
    }
}

/// Lifting acts coefficientwise linearly: if `z`'s coefficients are the sums
/// of `x`'s and `y`'s, that stays true after lifting all three.
pub proof fn lemma_lift_linear(x: AmpModel, y: AmpModel, z: AmpModel, j: nat)
    requires
        z.a == x.a + y.a,
        z.b == x.b + y.b,
        z.c == x.c + y.c,
        z.d == x.d + y.d,
    ensures
        m_lift(z, j).a == m_lift(x, j).a + m_lift(y, j).a,
        m_lift(z, j).b == m_lift(x, j).b + m_lift(y, j).b,
        m_lift(z, j).c == m_lift(x, j).c + m_lift(y, j).c,
        m_lift(z, j).d == m_lift(x, j).d + m_lift(y, j).d,
    decreases j,
{
    if j > 0 {
        lemma_lift_linear(x, y, z, (j - 1) as nat);
    }
}

/// Lifting keeps the exponent bookkeeping: the result exponent is `m.k + j`.
pub proof fn lemma_lift_k(m: AmpModel, j: nat)
    ensures
        m_lift(m, j).k == m.k + j,
    decreases j,
{
    if j > 0 {
        lemma_lift_k(m, (j - 1) as nat);
    }
}

/// A zero-valued representation stays zero-valued under lifting.
pub proof fn lemma_lift_zero(m: AmpModel, j: nat)
    requires
        m_is_zero(m),
    ensures
        m_is_zero(m_lift(m, j)),
    decreases j,
{
    if j > 0 {
        lemma_lift_zero(m, (j - 1) as nat);
    }
}

/// The comparison form of an exact sum is the coefficientwise sum of the
/// comparison forms.
pub proof fn lemma_cmp_add(x: AmpModel, y: AmpModel)
    requires
        x.k <= 128,
        y.k <= 128,
    ensures
        m_add(x, y).k <= 128,
        m_cmp(m_add(x, y)).a == m_cmp(x).a + m_cmp(y).a,
        m_cmp(m_add(x, y)).b == m_cmp(x).b + m_cmp(y).b,
        m_cmp(m_add(x, y)).c == m_cmp(x).c + m_cmp(y).c,
        m_cmp(m_add(x, y)).d == m_cmp(x).d + m_cmp(y).d,
{
    let kk = if x.k >= y.k {
        x.k
    } else {
        y.k
    };
    let xx = m_lift(x, (kk - x.k) as nat);
    let yy = m_lift(y, (kk - y.k) as nat);
    let z = m_add(x, y);
    lemma_lift_k(x, (kk - x.k) as nat);
    lemma_lift_k(y, (kk - y.k) as nat);
    lemma_lift_linear(xx, yy, z, (128 - kk) as nat);
    lemma_lift_compose(x, (kk - x.k) as nat, (128 - kk) as nat);
    lemma_lift_compose(y, (kk - y.k) as nat, (128 - kk) as nat);
}

/// A product with a zero-valued factor is zero-valued.
pub proof fn lemma_mul_zero_left(x: AmpModel, y: AmpModel)
    requires
        m_is_zero(x),
    ensures
        m_is_zero(m_mul(x, y)),
{
}

/// The comparison form of a zero-valued representation has zero coefficients.
pub proof fn lemma_cmp_zero(m: AmpModel)
    requires
        m_is_zero(m),
        m.k <= 128,
    ensures
        m_cmp(m).a == 0,
        m_cmp(m).b == 0,
        m_cmp(m).c == 0,
        m_cmp(m).d == 0,
        m_cmp(m).k == 128,
{
    lemma_lift_zero(m, (128 - m.k) as nat);
    lemma_lift_k(m, (128 - m.k) as nat);
}

/// Lifting the right factor lifts the product: one step commutes with
/// multiplication.
pub proof fn lemma_mul_step_right(e: AmpModel, x: AmpModel)
    ensures
        m_mul(e, m_step(x)) == m_step(m_mul(e, x)),
{
    let l = m_mul(e, m_step(x));
    let r = m_step(m_mul(e, x));
    assert(l.a == r.a) by (nonlinear_arith)
        requires
            l.a == e.a * (2 * x.b) + 2 * e.b * x.a - e.c * (2 * x.d) - 2 * e.d * x.c,
            r.a == 2 * (e.a * x.b + e.b * x.a - e.c * x.d - e.d * x.c),
    ;
    assert(l.b == r.b) by (nonlinear_arith)
        requires
            l.b == e.a * x.a + e.b * (2 * x.b) - e.c * x.c - e.d * (2 * x.d),
            r.b == e.a * x.a + 2 * e.b * x.b - e.c * x.c - 2 * e.d * x.d,
    ;
    assert(l.c == r.c) by (nonlinear_arith)
        requires
            l.c == e.a * (2 * x.d) + e.c * (2 * x.b) + 2 * e.b * x.c + 2 * e.d * x.a,
            r.c == 2 * (e.a * x.d + e.d * x.a + e.b * x.c + e.c * x.b),
    ;
    assert(l.d == r.d) by (nonlinear_arith)
        requires
            l.d == e.a * x.c + e.d * (2 * x.b) + e.b * (2 * x.d) + e.c * x.a,
            r.d == e.a * x.c + e.c * x.a + 2 * e.b * x.d + 2 * e.d * x.b,
    ;
}

/// Lifting commutes with multiplication on the right factor.
pub proof fn lemma_mul_lift_right(e: AmpModel, x: AmpModel, j: nat)
    ensures
        m_mul(e, m_lift(x, j)) == m_lift(m_mul(e, x), j),
    decreases j,
{
    if j > 0 {
        lemma_mul_lift_right(e, x, (j - 1) as nat);
        lemma_mul_step_right(e, m_lift(x, (j - 1) as nat));
    }
}

/// For a factor at exponent 0, the comparison form of a product is the
/// product with the comparison form: multiplying by a fixed gate entry is
/// compatible with value equality.
pub proof fn lemma_cmp_mul_left(e: AmpModel, x: AmpModel)
    requires
        e.k == 0,
        x.k <= 128,
    ensures
        m_cmp(m_mul(e, x)) == m_mul(e, m_cmp(x)),
{
    lemma_mul_lift_right(e, x, (128 - x.k) as nat);
}

/// Product magnitude bound used to justify the `i128` arithmetic below.
proof fn lemma_abs_mul_bound(x: int, y: int, bx: int, by: int)
    by (nonlinear_arith)
    requires
        -bx <= x <= bx,
        -by <= y <= by,
        0 <= bx,
        0 <= by,
    ensures
        -(bx * by) <= x * y <= bx * by,
{
}

/// Coefficients at most double per lifting step, so `j` steps scale the
/// magnitude bound by at most 2^j.
proof fn lemma_lift_bound(m: AmpModel, j: nat, bound: int)
    requires
        0 <= bound,
        -bound <= m.a <= bound,
        -bound <= m.b <= bound,
        -bound <= m.c <= bound,
        -bound <= m.d <= bound,
    ensures
        -(bound * crate::pow2_int(j)) <= m_lift(m, j).a <= bound * crate::pow2_int(j),
        -(bound * crate::pow2_int(j)) <= m_lift(m, j).b <= bound * crate::pow2_int(j),
        -(bound * crate::pow2_int(j)) <= m_lift(m, j).c <= bound * crate::pow2_int(j),
        -(bound * crate::pow2_int(j)) <= m_lift(m, j).d <= bound * crate::pow2_int(j),
    decreases j,
{
    if j == 0 {
        assert(crate::pow2_int(0) == 1);
        assert(bound * 1 == bound) by (nonlinear_arith);
    } else {
        lemma_lift_bound(m, (j - 1) as nat, bound);
        let p1 = crate::pow2_int((j - 1) as nat);
        let p = crate::pow2_int(j);
        crate::lemma_pow2_int_pos((j - 1) as nat);
        assert(p == 2 * p1);
        assert(bound * p == 2 * (bound * p1)) by (nonlinear_arith)
            requires
                p == 2 * p1,
        ;
        assert(bound * p1 <= bound * p) by (nonlinear_arith)
            requires
                0 <= bound,
                1 <= p1,
                p == 2 * p1,
        ;
    }
}

/// A well-formed amplitude lifted at most `AMP_EXP_MAX` times keeps its
/// coefficients below 2^122, far inside the `i128` range.
proof fn lemma_coeffs_in_range(m: AmpModel, t: nat)
    requires
        amp_wf(m),
        t <= AMP_EXP_MAX as nat,
    ensures
        -0x400_0000_0000_0000_0000_0000_0000_0000 <= m_lift(m, t).a
            <= 0x400_0000_0000_0000_0000_0000_0000_0000,
        -0x400_0000_0000_0000_0000_0000_0000_0000 <= m_lift(m, t).b
            <= 0x400_0000_0000_0000_0000_0000_0000_0000,
        -0x400_0000_0000_0000_0000_0000_0000_0000 <= m_lift(m, t).c
            <= 0x400_0000_0000_0000_0000_0000_0000_0000,
        -0x400_0000_0000_0000_0000_0000_0000_0000 <= m_lift(m, t).d
            <= 0x400_0000_0000_0000_0000_0000_0000_0000,
{
    lemma_lift_bound(m, t, AMP_COEFF_MAX as int);
    crate::lemma_pow2_int_le(t, 60);
    crate::lemma_pow2_int_pos(t);
    crate::lemma_pow2_int_values();
    assert((AMP_COEFF_MAX as int) * crate::pow2_int(t) <= (AMP_COEFF_MAX as int) * crate::pow2_int(
        60,
    )) by (nonlinear_arith)
        requires
            crate::pow2_int(t) <= crate::pow2_int(60),
            crate::pow2_int(t) >= 0,
    ;
}

impl Amp {
    /// The zero amplitude.
    pub fn zero() -> (r: Amp)
        ensures
            r@ == m_zero(),
            amp_wf(r@),
    {
        Amp { a: 0, b: 0, c: 0, d: 0, k: 0 }
    }

    /// The amplitude 1.
    pub fn one() -> (r: Amp)
        ensures
            r@ == m_one(),
            amp_wf(r@),
    {
        Amp { a: 1, b: 0, c: 0, d: 0, k: 0 }
    }

    /// Complex conjugate.
    pub fn conj(&self) -> (r: Amp)
        requires
            amp_wf(self@),
        ensures
            r@ == m_conj(self@),
            amp_wf(r@),
    {
        Amp { a: self.a, b: self.b, c: -self.c, d: -self.d, k: self.k }
    }

    /// Exact addition.  Returns `None` exactly when the exact result does not
    /// fit the well-formed coefficient range, so a `Some` answer is the true
    /// sum and nothing is ever silently truncated.
    pub fn checked_add(&self, o: &Amp) -> (r: Option<Amp>)
        requires
            amp_wf(self@),
            amp_wf(o@),
        ensures
            r is Some <==> amp_wf(m_add(self@, o@)),
            r matches Some(v) ==> v@ == m_add(self@, o@) && amp_wf(v@),
    {
        let kk: u32 = if self.k >= o.k {
            self.k
        } else {
            o.k
        };
        let ghost xm = self@;
        let ghost ym = o@;
        let (xa, xb, xc, xd) = Self::lift_coeffs(self, kk);
        let (ya, yb, yc, yd) = Self::lift_coeffs(o, kk);
        let za = xa + ya;
        let zb = xb + yb;
        let zc = xc + yc;
        let zd = xd + yd;
        let lim = AMP_COEFF_MAX as i128;
        if -lim <= za && za <= lim && -lim <= zb && zb <= lim && -lim <= zc && zc <= lim && -lim
            <= zd && zd <= lim {
            Some(Amp { a: za as i64, b: zb as i64, c: zc as i64, d: zd as i64, k: kk })
        } else {
            None
        }
    }

    /// The numerator coefficients of `self` lifted to exponent `kk`, computed
    /// in `i128`.  Doubling at most `AMP_EXP_MAX` times keeps every value
    /// far below the `i128` range.
    fn lift_coeffs(&self, kk: u32) -> (r: (i128, i128, i128, i128))
        requires
            amp_wf(self@),
            self.k <= kk <= AMP_EXP_MAX,
        ensures
            r.0 as int == m_lift(self@, (kk - self.k) as nat).a,
            r.1 as int == m_lift(self@, (kk - self.k) as nat).b,
            r.2 as int == m_lift(self@, (kk - self.k) as nat).c,
            r.3 as int == m_lift(self@, (kk - self.k) as nat).d,
            -0x400_0000_0000_0000_0000_0000_0000_0000 <= r.0 as int
                <= 0x400_0000_0000_0000_0000_0000_0000_0000,
            -0x400_0000_0000_0000_0000_0000_0000_0000 <= r.1 as int
                <= 0x400_0000_0000_0000_0000_0000_0000_0000,
            -0x400_0000_0000_0000_0000_0000_0000_0000 <= r.2 as int
                <= 0x400_0000_0000_0000_0000_0000_0000_0000,
            -0x400_0000_0000_0000_0000_0000_0000_0000 <= r.3 as int
                <= 0x400_0000_0000_0000_0000_0000_0000_0000,
    {
        let ghost m = self@;
        let mut aa: i128 = self.a as i128;
        let mut bb: i128 = self.b as i128;
        let mut cc: i128 = self.c as i128;
        let mut dd: i128 = self.d as i128;
        let mut t: u32 = 0;
        let j: u32 = kk - self.k;
        while t < j
            invariant
                t <= j <= AMP_EXP_MAX,
                amp_wf(m),
                aa as int == m_lift(m, t as nat).a,
                bb as int == m_lift(m, t as nat).b,
                cc as int == m_lift(m, t as nat).c,
                dd as int == m_lift(m, t as nat).d,
            decreases j - t,
        {
            proof {
                lemma_coeffs_in_range(m, t as nat);
            }
            let na: i128 = 2 * bb;
            let nb: i128 = aa;
            let nc: i128 = 2 * dd;
            let nd: i128 = cc;
            aa = na;
            bb = nb;
            cc = nc;
            dd = nd;
            t = t + 1;
        }
        proof {
            lemma_coeffs_in_range(m, t as nat);
        }
        (aa, bb, cc, dd)
    }

    /// Exact multiplication.  Returns `None` exactly when the exact product
    /// leaves the well-formed range (coefficients or exponent).
    pub fn checked_mul(&self, o: &Amp) -> (r: Option<Amp>)
        requires
            amp_wf(self@),
            amp_wf(o@),
        ensures
            r is Some <==> amp_wf(m_mul(self@, o@)),
            r matches Some(v) ==> v@ == m_mul(self@, o@) && amp_wf(v@),
    {
        if self.k + o.k > AMP_EXP_MAX {
            return None;
        }
        let (xa, xb, xc, xd) = (self.a as i128, self.b as i128, self.c as i128, self.d as i128);
        let (ya, yb, yc, yd) = (o.a as i128, o.b as i128, o.c as i128, o.d as i128);
        proof {
            let bb = AMP_COEFF_MAX as int;
            lemma_abs_mul_bound(xa as int, ya as int, bb, bb);
            lemma_abs_mul_bound(xb as int, yb as int, bb, bb);
            lemma_abs_mul_bound(xc as int, yc as int, bb, bb);
            lemma_abs_mul_bound(xd as int, yd as int, bb, bb);
            lemma_abs_mul_bound(xa as int, yb as int, bb, bb);
            lemma_abs_mul_bound(xb as int, ya as int, bb, bb);
            lemma_abs_mul_bound(xc as int, yd as int, bb, bb);
            lemma_abs_mul_bound(xd as int, yc as int, bb, bb);
            lemma_abs_mul_bound(xa as int, yc as int, bb, bb);
            lemma_abs_mul_bound(xc as int, ya as int, bb, bb);
            lemma_abs_mul_bound(xb as int, yd as int, bb, bb);
            lemma_abs_mul_bound(xd as int, yb as int, bb, bb);
            lemma_abs_mul_bound(xa as int, yd as int, bb, bb);
            lemma_abs_mul_bound(xd as int, ya as int, bb, bb);
            lemma_abs_mul_bound(xb as int, yc as int, bb, bb);
            lemma_abs_mul_bound(xc as int, yb as int, bb, bb);
        }
        proof {
            let bb = AMP_COEFF_MAX as int;
            lemma_abs_mul_bound(2 * (xb as int), yb as int, 2 * bb, bb);
            lemma_abs_mul_bound(2 * (xd as int), yd as int, 2 * bb, bb);
            lemma_abs_mul_bound(2 * (xb as int), yd as int, 2 * bb, bb);
            lemma_abs_mul_bound(2 * (xd as int), yb as int, 2 * bb, bb);
        }
        let za = xa * ya + 2 * xb * yb - xc * yc - 2 * xd * yd;
        let zb = xa * yb + xb * ya - xc * yd - xd * yc;
        let zc = xa * yc + xc * ya + 2 * xb * yd + 2 * xd * yb;
        let zd = xa * yd + xd * ya + xb * yc + xc * yb;
        let lim = AMP_COEFF_MAX as i128;
        if -lim <= za && za <= lim && -lim <= zb && zb <= lim && -lim <= zc && zc <= lim && -lim
            <= zd && zd <= lim {
            Some(Amp { a: za as i64, b: zb as i64, c: zc as i64, d: zd as i64, k: self.k + o.k })
        } else {
            None
        }
    }
}

} // verus!
