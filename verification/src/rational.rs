use vstd::prelude::*;

verus! {

/// Mathematical value of a scalar: a fraction `n / d` of unbounded
/// integers with a positive denominator.  All engine contracts are stated
/// over these fractions.
pub struct Ratio {
    pub n: int,
    pub d: int,
}

pub open spec fn ratio_wf(r: Ratio) -> bool {
    r.d >= 1
}

pub open spec fn ratio_zero() -> Ratio {
    Ratio { n: 0, d: 1 }
}

pub open spec fn ratio_one() -> Ratio {
    Ratio { n: 1, d: 1 }
}

/// Equality of fractions by cross-multiplication.
pub open spec fn ratio_eq(a: Ratio, b: Ratio) -> bool {
    a.n * b.d == b.n * a.d
}

/// `a <= b` for fractions with positive denominators.
pub open spec fn ratio_le(a: Ratio, b: Ratio) -> bool {
    a.n * b.d <= b.n * a.d
}

pub open spec fn ratio_add(a: Ratio, b: Ratio) -> Ratio {
    Ratio { n: a.n * b.d + b.n * a.d, d: a.d * b.d }
}

pub open spec fn ratio_sub(a: Ratio, b: Ratio) -> Ratio {
    Ratio { n: a.n * b.d - b.n * a.d, d: a.d * b.d }
}

pub open spec fn ratio_mul(a: Ratio, b: Ratio) -> Ratio {
    Ratio { n: a.n * b.n, d: a.d * b.d }
}

/// The rectifier on fractions: the value itself when strictly positive,
/// zero otherwise.  With a positive denominator the sign of the fraction
/// is the sign of its numerator.
pub open spec fn ratio_relu(a: Ratio) -> Ratio {
    if a.n > 0 {
        a
    } else {
        ratio_zero()
    }
}

pub open spec fn mag(x: int) -> int {
    if x < 0 {
        -x
    } else {
        x
    }
}

/// Whether a fraction can be stored as a pair of signed 64-bit machine
/// words (the numerator range is kept symmetric).
pub open spec fn fits(r: Ratio) -> bool {
    &&& mag(r.n) <= i64::MAX
    &&& 1 <= r.d <= i64::MAX
}

/// `c` is a stored representative of the mathematical value `m`: the same
/// fraction, with a numerator and a denominator no larger in magnitude.
/// The bound is what lets a caller conclude that a computation whose exact
/// result fits also succeeds on the stored (possibly reduced) operands.
pub open spec fn models(c: Ratio, m: Ratio) -> bool {
    &&& ratio_eq(c, m)
    &&& mag(c.n) <= mag(m.n)
    &&& 1 <= c.d <= m.d
}

proof fn lemma_mul_range(x: int, y: int, a: int, b: int) by (nonlinear_arith)
    requires
        -a <= x <= a,
        -b <= y <= b,
        0 <= a,
        0 <= b,
    ensures
        -(a * b) <= x * y <= a * b,
{
}

proof fn lemma_pos_prod(p: int, q: int) by (nonlinear_arith)
    requires
        1 <= p,
        1 <= q,
    ensures
        1 <= p * q,
{
}

/// The product of two positive denominators is positive.
pub proof fn lemma_pos_prod_pub(p: int, q: int)
    requires
        1 <= p,
        1 <= q,
    ensures
        1 <= p * q,
{
    lemma_pos_prod(p, q);
}

/// If `x / p == y / q` as fractions and `p <= q`, the numerator over the
/// smaller denominator is no larger in magnitude.
proof fn lemma_mag_from_scaling(x: int, y: int, p: int, q: int)
    requires
        x * q == y * p,
        1 <= p <= q,
    ensures
        mag(x) <= mag(y),
{
    if x >= 0 {
        assert(y >= 0) by (nonlinear_arith)
            requires
                x * q == y * p,
                1 <= p <= q,
                x >= 0,
        {
        }
        assert(x <= y) by (nonlinear_arith)
            requires
                x * q == y * p,
                1 <= p <= q,
                x >= 0,
                y >= 0,
        {
        }
    } else {
        assert(y <= 0) by (nonlinear_arith)
            requires
                x * q == y * p,
                1 <= p <= q,
                x < 0,
        {
        }
        assert(y <= x) by (nonlinear_arith)
            requires
                x * q == y * p,
                1 <= p <= q,
                x < 0,
                y <= 0,
        {
        }
    }
}

pub proof fn lemma_models_refl(a: Ratio)
    requires
        ratio_wf(a),
    ensures
        models(a, a),
{
}

pub proof fn lemma_models_trans(a: Ratio, b: Ratio, c: Ratio)
    requires
        models(a, b),
        models(b, c),
    ensures
        models(a, c),
{
    assert(a.n * c.d == c.n * a.d) by (nonlinear_arith)
        requires
            a.n * b.d == b.n * a.d,
            b.n * c.d == c.n * b.d,
            1 <= a.d <= b.d,
            1 <= b.d <= c.d,
    {
    }
}

/// Addition respects the `models` relation: adding stored representatives
/// yields a representative of the sum of the modeled values.
pub proof fn lemma_add_models(a: Ratio, ma: Ratio, b: Ratio, mb: Ratio)
    requires
        models(a, ma),
        models(b, mb),
    ensures
        models(ratio_add(a, b), ratio_add(ma, mb)),
{
    let rn = a.n * b.d + b.n * a.d;
    let mn = ma.n * mb.d + mb.n * ma.d;
    assert(rn * (ma.d * mb.d) == mn * (a.d * b.d) && 1 <= a.d * b.d <= ma.d * mb.d)
        by (nonlinear_arith)
        requires
            a.n * ma.d == ma.n * a.d,
            b.n * mb.d == mb.n * b.d,
            1 <= a.d <= ma.d,
            1 <= b.d <= mb.d,
            rn == a.n * b.d + b.n * a.d,
            mn == ma.n * mb.d + mb.n * ma.d,
    {
    }
    lemma_mag_from_scaling(rn, mn, a.d * b.d, ma.d * mb.d);
}

/// Subtraction respects the `models` relation.
pub proof fn lemma_sub_models(a: Ratio, ma: Ratio, b: Ratio, mb: Ratio)
    requires
        models(a, ma),
        models(b, mb),
    ensures
        models(ratio_sub(a, b), ratio_sub(ma, mb)),
{
    let rn = a.n * b.d - b.n * a.d;
    let mn = ma.n * mb.d - mb.n * ma.d;
    assert(rn * (ma.d * mb.d) == mn * (a.d * b.d) && 1 <= a.d * b.d <= ma.d * mb.d)
        by (nonlinear_arith)
        requires
            a.n * ma.d == ma.n * a.d,
            b.n * mb.d == mb.n * b.d,
            1 <= a.d <= ma.d,
            1 <= b.d <= mb.d,
            rn == a.n * b.d - b.n * a.d,
            mn == ma.n * mb.d - mb.n * ma.d,
    {
    }
    lemma_mag_from_scaling(rn, mn, a.d * b.d, ma.d * mb.d);
}

/// Multiplication respects the `models` relation.
pub proof fn lemma_mul_models(a: Ratio, ma: Ratio, b: Ratio, mb: Ratio)
    requires
        models(a, ma),
        models(b, mb),
    ensures
        models(ratio_mul(a, b), ratio_mul(ma, mb)),
{
    let rn = a.n * b.n;
    let mn = ma.n * mb.n;
    assert(rn * (ma.d * mb.d) == mn * (a.d * b.d) && 1 <= a.d * b.d <= ma.d * mb.d)
        by (nonlinear_arith)
        requires
            a.n * ma.d == ma.n * a.d,
            b.n * mb.d == mb.n * b.d,
            1 <= a.d <= ma.d,
            1 <= b.d <= mb.d,
            rn == a.n * b.n,
            mn == ma.n * mb.n,
    {
    }
    lemma_mag_from_scaling(rn, mn, a.d * b.d, ma.d * mb.d);
}

/// Two equal fractions with positive denominators have numerators of the
/// same sign, so the rectifier respects the `models` relation.
pub proof fn lemma_relu_models(a: Ratio, ma: Ratio)
    requires
        models(a, ma),
    ensures
        models(ratio_relu(a), ratio_relu(ma)),
        (a.n > 0) == (ma.n > 0),
{
    assert((a.n > 0) == (ma.n > 0)) by (nonlinear_arith)
        requires
            a.n * ma.d == ma.n * a.d,
            1 <= a.d,
            1 <= ma.d,
    {
    }
}

/// Two fractions equal to a common fraction are equal to each other.
pub proof fn lemma_ratio_eq_common(a: Ratio, b: Ratio, c: Ratio)
    requires
        ratio_eq(a, c),
        ratio_eq(b, c),
        ratio_wf(a),
        ratio_wf(b),
        ratio_wf(c),
    ensures
        ratio_eq(a, b),
{
    assert(a.n * b.d == b.n * a.d) by (nonlinear_arith)
        requires
            a.n * c.d == c.n * a.d,
            b.n * c.d == c.n * b.d,
            1 <= a.d,
            1 <= b.d,
            1 <= c.d,
    {
    }
}

/// A representative no larger in magnitude than a fraction that fits in
/// storage fits in storage itself.
pub proof fn lemma_fits_models(c: Ratio, m: Ratio)
    requires
        models(c, m),
        fits(m),
    ensures
        fits(c),
{
}

/// A scalar stored as a fraction of two signed 64-bit integers with a
/// positive denominator.  The exact mathematical value is `self@`.
///
/// Arithmetic on these scalars is exact, never rounded, so denominators
/// can only grow as values combine; the checked operations reduce by a
/// common divisor and report `None` once an exact result no longer fits
/// in 64 bits.  Long chains of dependent updates — many gradient-descent
/// steps on one graph, say — therefore run out of storage eventually,
/// where rounding arithmetic would instead drift.
#[derive(Clone, Copy, PartialEq, Eq, Debug)]
pub struct Rat {
    pub num: i64,
    pub den: i64,
}

impl View for Rat {
    type V = Ratio;

    open spec fn view(&self) -> Ratio {
        Ratio { n: self.num as int, d: self.den as int }
    }
}

impl Rat {
    pub open spec fn wf(self) -> bool {
        self.den >= 1
    }

    /// The fraction `num / den`.
    pub fn new(num: i64, den: i64) -> (r: Rat)
        requires
            den >= 1,
        ensures
            r.wf(),
            r@ == (Ratio { n: num as int, d: den as int }),
    {
        Rat { num, den }
    }

    pub fn from_int(v: i64) -> (r: Rat)
        ensures
            r.wf(),
            r@ == (Ratio { n: v as int, d: 1 }),
    {
        Rat { num: v, den: 1 }
    }

    pub fn zero() -> (r: Rat)
        ensures
            r.wf(),
            r@ == ratio_zero(),
    {
        Rat { num: 0, den: 1 }
    }

    pub fn one() -> (r: Rat)
        ensures
            r.wf(),
            r@ == ratio_one(),
    {
        Rat { num: 1, den: 1 }
    }

    pub fn is_positive(&self) -> (r: bool)
        requires
            self.wf(),
        ensures
            r == (self@.n > 0),
    {
        self.num > 0
    }

    /// Exact equality test of the two fractions.
    pub fn eq_rat(&self, other: &Rat) -> (r: bool)
        requires
            self.wf(),
            other.wf(),
        ensures
            r == ratio_eq(self@, other@),
    {
        proof {
            lemma_mul_range(self.num as int, other.den as int, 0x8000_0000_0000_0000, i64::MAX as int);
            lemma_mul_range(other.num as int, self.den as int, 0x8000_0000_0000_0000, i64::MAX as int);
        }
        (self.num as i128) * (other.den as i128) == (other.num as i128) * (self.den as i128)
    }

    /// Exact order test of the two fractions.
    pub fn le_rat(&self, other: &Rat) -> (r: bool)
        requires
            self.wf(),
            other.wf(),
        ensures
            r == ratio_le(self@, other@),
    {
        proof {
            lemma_mul_range(self.num as int, other.den as int, 0x8000_0000_0000_0000, i64::MAX as int);
            lemma_mul_range(other.num as int, self.den as int, 0x8000_0000_0000_0000, i64::MAX as int);
        }
        (self.num as i128) * (other.den as i128) <= (other.num as i128) * (self.den as i128)
    }

    /// The sum, reduced, or `None` when it cannot be stored.  Whenever the
    /// exact unreduced sum fits, the call succeeds.
    pub fn checked_add(&self, other: &Rat) -> (r: Option<Rat>)
        requires
            self.wf(),
            other.wf(),
        ensures
            r matches Some(c) ==> c.wf() && models(c@, ratio_add(self@, other@)),
            fits(ratio_add(self@, other@)) ==> r is Some,
    {
        proof {
            lemma_mul_range(self.num as int, other.den as int, 0x8000_0000_0000_0000, i64::MAX as int);
            lemma_mul_range(other.num as int, self.den as int, 0x8000_0000_0000_0000, i64::MAX as int);
            lemma_mul_range(self.den as int, other.den as int, i64::MAX as int, i64::MAX as int);
            lemma_pos_prod(self.den as int, other.den as int);
        }
        let n: i128 = (self.num as i128) * (other.den as i128) + (other.num as i128)
            * (self.den as i128);
        let d: i128 = (self.den as i128) * (other.den as i128);
        from_parts(n, d)
    }

    /// The difference, reduced, or `None` when it cannot be stored.
    pub fn checked_sub(&self, other: &Rat) -> (r: Option<Rat>)
        requires
            self.wf(),
            other.wf(),
        ensures
            r matches Some(c) ==> c.wf() && models(c@, ratio_sub(self@, other@)),
            fits(ratio_sub(self@, other@)) ==> r is Some,
    {
        proof {
            lemma_mul_range(self.num as int, other.den as int, 0x8000_0000_0000_0000, i64::MAX as int);
            lemma_mul_range(other.num as int, self.den as int, 0x8000_0000_0000_0000, i64::MAX as int);
            lemma_mul_range(self.den as int, other.den as int, i64::MAX as int, i64::MAX as int);
            lemma_pos_prod(self.den as int, other.den as int);
        }
        let n: i128 = (self.num as i128) * (other.den as i128) - (other.num as i128)
            * (self.den as i128);
        let d: i128 = (self.den as i128) * (other.den as i128);
        from_parts(n, d)
    }

    /// The product, reduced, or `None` when it cannot be stored.
    pub fn checked_mul(&self, other: &Rat) -> (r: Option<Rat>)
        requires
            self.wf(),
            other.wf(),
        ensures
            r matches Some(c) ==> c.wf() && models(c@, ratio_mul(self@, other@)),
            fits(ratio_mul(self@, other@)) ==> r is Some,
    {
        proof {
            lemma_mul_range(self.num as int, other.num as int, 0x8000_0000_0000_0000, 0x8000_0000_0000_0000);
            lemma_mul_range(self.den as int, other.den as int, i64::MAX as int, i64::MAX as int);
            lemma_pos_prod(self.den as int, other.den as int);
        }
        let n: i128 = (self.num as i128) * (other.num as i128);
        let d: i128 = (self.den as i128) * (other.den as i128);
        from_parts(n, d)
    }

    /// An equal fraction in lower terms where one exists; never fails.
    pub fn reduced(&self) -> (r: Rat)
        requires
            self.wf(),
        ensures
            r.wf(),
            models(r@, self@),
    {
        match from_parts(self.num as i128, self.den as i128) {
            Some(c) => c,
            None => *self,
        }
    }
}

fn gcd_u128(a0: u128, b0: u128) -> (g: u128)
    ensures
        g >= 1,
{
    let mut a = a0;
    let mut b = b0;
    while b != 0
        decreases b,
    {
        let t = a % b;
        a = b;
        b = t;
    }
    if a == 0 {
        1
    } else {
        a
    }
}

/// Stores the fraction `n / d` in lower terms as a pair of 64-bit words.
/// Divisibility by the computed common divisor is checked at run time, so
/// the contract does not depend on properties of `gcd_u128`.
fn from_parts(n: i128, d: i128) -> (r: Option<Rat>)
    requires
        1 <= d,
        i128::MIN < n,
    ensures
        r matches Some(c) ==> c.wf() && models(c@, Ratio { n: n as int, d: d as int }),
        fits(Ratio { n: n as int, d: d as int }) ==> r is Some,
{
    let neg: bool = n < 0;
    let na: u128 = if neg {
        (-n) as u128
    } else {
        n as u128
    };
    let da: u128 = d as u128;
    assert(na as int == mag(n as int));
    let g = gcd_u128(na, da);
    let mut rn: u128 = na;
    let mut rd: u128 = da;
    if g > 1 {
        let qn = na / g;
        let qd = da / g;
        proof {
            vstd::arithmetic::div_mod::lemma_fundamental_div_mod(na as int, g as int);
            vstd::arithmetic::div_mod::lemma_fundamental_div_mod(da as int, g as int);
        }
        if qd >= 1 && qn * g == na && qd * g == da {
            rn = qn;
            rd = qd;
            assert(rn * da == na * rd) by (nonlinear_arith)
                requires
                    rn * g == na,
                    rd * g == da,
            {
            }
        }
    }
    assert(rn * da == na * rd && rn <= na && 1 <= rd <= da);
    if rn <= (i64::MAX as u128) && rd <= (i64::MAX as u128) {
        let num: i64 = if neg {
            -(rn as i64)
        } else {
            rn as i64
        };
        let den: i64 = rd as i64;
        proof {
            let ni = n as int;
            let di = d as int;
            if neg {
                assert((num as int) * di == ni * (den as int)) by (nonlinear_arith)
                    requires
                        (rn as int) * di == (-ni) * (rd as int),
                        num as int == -(rn as int),
                        den as int == rd as int,
                {
                }
            }
        }
        Some(Rat { num, den })
    } else {
        None
    }
}

} // verus!
