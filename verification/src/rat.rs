//! Exact rational arithmetic on machine integers.
//!
//! Every quantity in the tableau is a `Rat`: a numerator over a strictly
//! positive denominator, kept reduced so that small problems stay within
//! `i64`. Operations state their exact mathematical result through
//! `is_ratio`; when a reduced result cannot fit the machine word the
//! operation reports `None` instead of returning a wrong value.

use vstd::prelude::*;

verus! {

/// An exact rational number. `den` is strictly positive for well-formed
/// values; `num` stays above `i64::MIN` so negation cannot overflow.
#[derive(Clone, Copy, Debug, PartialEq, Eq, Structural)]
pub struct Rat {
    pub num: i64,
    pub den: i64,
}

impl Rat {
    pub open spec fn wf(self) -> bool {
        self.den > 0 && self.num > i64::MIN
    }
}

/// `r` represents exactly the ratio `n / d` (meaningful for `d != 0`).
pub open spec fn is_ratio(r: Rat, n: int, d: int) -> bool {
    r.num * d == n * r.den
}

/// `a <= b` as rational numbers (both well-formed).
pub open spec fn rat_le(a: Rat, b: Rat) -> bool {
    a.num * b.den <= b.num * a.den
}

/// `a < b` as rational numbers (both well-formed).
pub open spec fn rat_lt(a: Rat, b: Rat) -> bool {
    a.num * b.den < b.num * a.den
}

/// `a == b` as rational numbers (both well-formed).
pub open spec fn rat_eqv(a: Rat, b: Rat) -> bool {
    a.num * b.den == b.num * a.den
}

pub open spec fn iabs(n: int) -> int {
    if n < 0 { -n } else { n }
}

/// The feasibility tolerance of the solver: `|r| < 1/10000`.
pub open spec fn within_tol(r: Rat) -> bool {
    10000 * iabs(r.num as int) < r.den as int
}

/// `g` divides `n` exactly.
pub open spec fn divides(g: int, n: int) -> bool {
    exists|k: int| n == #[trigger] (g * k)
}

proof fn lemma_divides_step(g: int, b: int, q: int, r: int, a: int)
    requires
        divides(g, b),
        divides(g, r),
        a == b * q + r,
    ensures
        divides(g, a),
{
    let k1 = choose|k: int| b == #[trigger] (g * k);
    let k2 = choose|k: int| r == #[trigger] (g * k);
    assert(a == g * (k1 * q + k2)) by (nonlinear_arith)
        requires
            b == g * k1,
            r == g * k2,
            a == b * q + r;
}

/// Euclid's algorithm; the result divides both arguments and is at least 1.
fn gcd_u128(a: u128, b: u128) -> (g: u128)
    requires
        a > 0 || b > 0,
    ensures
        g >= 1,
        divides(g as int, a as int),
        divides(g as int, b as int),
    decreases b,
{
    if b == 0 {
        proof {
            assert(a as int == (a as int) * 1int);
            assert(0int == (a as int) * 0int);
        }
        a
    } else {
        let r = a % b;
        let g = gcd_u128(b, r);
        proof {
            vstd::arithmetic::div_mod::lemma_fundamental_div_mod(a as int, b as int);
            lemma_divides_step(g as int, b as int, a as int / b as int, r as int, a as int);
        }
        g
    }
}

/// Reduce `n / d` (with `d > 0`) to a well-formed `Rat`; `None` only when the
/// reduced numerator or denominator does not fit `i64`.
fn reduce(n: i128, d: i128) -> (r: Option<Rat>)
    requires
        n > i128::MIN,
        d > 0,
    ensures
        r matches Some(v) ==> v.wf() && is_ratio(v, n as int, d as int),
        iabs(n as int) <= i64::MAX && d <= i64::MAX ==> r is Some,
{
    let nn: u128 = if n < 0 { (-n) as u128 } else { n as u128 };
    let dd: u128 = d as u128;
    if nn == 0 {
        return Some(Rat { num: 0, den: 1 });
    }
    let g = gcd_u128(nn, dd);
    let nr = nn / g;
    let dr = dd / g;
    proof {
        let k1 = choose|k: int| nn as int == #[trigger] ((g as int) * k);
        let k2 = choose|k: int| dd as int == #[trigger] ((g as int) * k);
        assert(k1 >= 1 && k1 <= nn as int) by (nonlinear_arith)
            requires
                nn as int == (g as int) * k1,
                g >= 1,
                nn as int >= 1;
        assert(k2 >= 1 && k2 <= dd as int) by (nonlinear_arith)
            requires
                dd as int == (g as int) * k2,
                g >= 1,
                dd as int >= 1;
        vstd::arithmetic::div_mod::lemma_div_multiples_vanish(k1, g as int);
        vstd::arithmetic::div_mod::lemma_div_multiples_vanish(k2, g as int);
        assert(nr as int == k1);
        assert(dr as int == k2);
    }
    if nr <= i64::MAX as u128 && dr <= i64::MAX as u128 {
        let num: i64 = if n < 0 { -(nr as i64) } else { nr as i64 };
        let v = Rat { num, den: dr as i64 };
        proof {
            let k1 = choose|k: int| nn as int == #[trigger] ((g as int) * k);
            let k2 = choose|k: int| dd as int == #[trigger] ((g as int) * k);
            if n < 0 {
                assert((-k1) * ((g as int) * k2) == (-((g as int) * k1)) * k2)
                    by (nonlinear_arith);
            } else {
                assert(k1 * ((g as int) * k2) == ((g as int) * k1) * k2) by (nonlinear_arith);
            }
        }
        Some(v)
    } else {
        None
    }
}

impl Rat {
    /// Exact constructor: reduces `num / den`. `None` only for `den == 0` or
    /// arguments at `i64::MIN`.
    pub fn new(num: i64, den: i64) -> (r: Option<Rat>)
        ensures
            r matches Some(v) ==> v.wf() && is_ratio(v, num as int, den as int),
            den != 0 && num > i64::MIN && den > i64::MIN ==> r is Some,
    {
        if den == 0 || num == i64::MIN || den == i64::MIN {
            return None;
        }
        let (n, d): (i128, i128) = if den < 0 {
            (-(num as i128), -(den as i128))
        } else {
            (num as i128, den as i128)
        };
        match reduce(n, d) {
            Some(v) => {
                proof {
                    assert(v.num * (den as int) == (num as int) * v.den) by (nonlinear_arith)
                        requires
                            v.num * (d as int) == (n as int) * v.den,
                            (n as int == -(num as int) && d as int == -(den as int)) || (n as int
                                == num as int && d as int == den as int);
                }
                Some(v)
            },
            None => None,
        }
    }

    /// The integer `num` as a rational.
    pub fn from_int(num: i64) -> (r: Rat)
        requires
            num > i64::MIN,
        ensures
            r.wf(),
            r.num == num,
            r.den == 1,
    {
        Rat { num, den: 1 }
    }

    pub fn one() -> (r: Rat)
        ensures
            r.wf(),
            r.num == 1,
            r.den == 1,
    {
        Rat { num: 1, den: 1 }
    }

    pub fn zero() -> (r: Rat)
        ensures
            r.wf(),
            r.num == 0,
            r.den == 1,
    {
        Rat { num: 0, den: 1 }
    }

    /// Exact negation; never overflows thanks to `wf`.
    pub fn neg(&self) -> (r: Rat)
        requires
            self.wf(),
        ensures
            r.wf(),
            r.num == -self.num,
            r.den == self.den,
    {
        Rat { num: -self.num, den: self.den }
    }

    /// Exact sum; `None` only when the reduced result leaves `i64`.
    pub fn add(&self, other: &Rat) -> (r: Option<Rat>)
        requires
            self.wf(),
            other.wf(),
        ensures
            r matches Some(v) ==> v.wf() && is_ratio(
                v,
                self.num * other.den + other.num * self.den,
                self.den * other.den,
            ),
            iabs(self.num * other.den + other.num * self.den) <= i64::MAX
                && self.den * other.den <= i64::MAX ==> r is Some,
    {
        proof {
            lemma_i64_mul_bound(self.num as int, other.den as int);
            lemma_i64_mul_bound(other.num as int, self.den as int);
            lemma_i64_mul_bound(self.den as int, other.den as int);
            lemma_pos_mul_pos(self.den as int, other.den as int);
        }
        let n = (self.num as i128) * (other.den as i128) + (other.num as i128) * (self.den
            as i128);
        let d = (self.den as i128) * (other.den as i128);
        reduce(n, d)
    }

    /// Exact difference; `None` only when the reduced result leaves `i64`.
    pub fn sub(&self, other: &Rat) -> (r: Option<Rat>)
        requires
            self.wf(),
            other.wf(),
        ensures
            r matches Some(v) ==> v.wf() && is_ratio(
                v,
                self.num * other.den - other.num * self.den,
                self.den * other.den,
            ),
            iabs(self.num * other.den - other.num * self.den) <= i64::MAX
                && self.den * other.den <= i64::MAX ==> r is Some,
    {
        proof {
            lemma_i64_mul_bound(self.num as int, other.den as int);
            lemma_i64_mul_bound(other.num as int, self.den as int);
            lemma_i64_mul_bound(self.den as int, other.den as int);
            lemma_pos_mul_pos(self.den as int, other.den as int);
        }
        let n = (self.num as i128) * (other.den as i128) - (other.num as i128) * (self.den
            as i128);
        let d = (self.den as i128) * (other.den as i128);
        reduce(n, d)
    }

    /// Exact product; `None` only when the reduced result leaves `i64`.
    pub fn mul(&self, other: &Rat) -> (r: Option<Rat>)
        requires
            self.wf(),
            other.wf(),
        ensures
            r matches Some(v) ==> v.wf() && is_ratio(
                v,
                self.num * other.num,
                self.den * other.den,
            ),
            iabs(self.num * other.num) <= i64::MAX && self.den * other.den <= i64::MAX
                ==> r is Some,
    {
        proof {
            lemma_i64_mul_bound(self.num as int, other.num as int);
            lemma_i64_mul_bound(self.den as int, other.den as int);
            lemma_pos_mul_pos(self.den as int, other.den as int);
        }
        let n = (self.num as i128) * (other.num as i128);
        let d = (self.den as i128) * (other.den as i128);
        reduce(n, d)
    }

    /// Exact quotient `self / other` for `other != 0`; `None` only when the
    /// reduced result leaves `i64`.
    pub fn div(&self, other: &Rat) -> (r: Option<Rat>)
        requires
            self.wf(),
            other.wf(),
            other.num != 0,
        ensures
            r matches Some(v) ==> v.wf() && is_ratio(
                v,
                self.num * other.den,
                self.den * other.num,
            ),
            iabs(self.num * other.den) <= i64::MAX && iabs(self.den * other.num) <= i64::MAX
                ==> r is Some,
    {
        proof {
            lemma_i64_mul_bound(self.num as int, other.den as int);
            lemma_i64_mul_bound(self.den as int, other.num as int);
            lemma_nonzero_mul(self.den as int, other.num as int);
        }
        let n0 = (self.num as i128) * (other.den as i128);
        let d0 = (self.den as i128) * (other.num as i128);
        let (n, d): (i128, i128) = if d0 < 0 {
            (-n0, -d0)
        } else {
            (n0, d0)
        };
        match reduce(n, d) {
            Some(v) => {
                proof {
                    assert(v.num * (self.den * other.num) == (self.num * other.den) * v.den)
                        by (nonlinear_arith)
                        requires
                            v.num * (d as int) == (n as int) * v.den,
                            (n as int == -(self.num * other.den) && d as int == -(self.den
                                * other.num)) || (n as int == self.num * other.den && d as int
                                == self.den * other.num);
                }
                Some(v)
            },
            None => None,
        }
    }

    /// Exact comparison `self <= other`.
    pub fn le(&self, other: &Rat) -> (r: bool)
        requires
            self.wf(),
            other.wf(),
        ensures
            r == rat_le(*self, *other),
    {
        proof {
            lemma_i64_mul_bound(self.num as int, other.den as int);
            lemma_i64_mul_bound(other.num as int, self.den as int);
        }
        (self.num as i128) * (other.den as i128) <= (other.num as i128) * (self.den as i128)
    }

    /// Exact comparison `self < other`.
    pub fn lt(&self, other: &Rat) -> (r: bool)
        requires
            self.wf(),
            other.wf(),
        ensures
            r == rat_lt(*self, *other),
    {
        proof {
            lemma_i64_mul_bound(self.num as int, other.den as int);
            lemma_i64_mul_bound(other.num as int, self.den as int);
        }
        (self.num as i128) * (other.den as i128) < (other.num as i128) * (self.den as i128)
    }

    /// Exact equality of the represented rational numbers.
    pub fn eq_val(&self, other: &Rat) -> (r: bool)
        requires
            self.wf(),
            other.wf(),
        ensures
            r == rat_eqv(*self, *other),
    {
        proof {
            lemma_i64_mul_bound(self.num as int, other.den as int);
            lemma_i64_mul_bound(other.num as int, self.den as int);
        }
        (self.num as i128) * (other.den as i128) == (other.num as i128) * (self.den as i128)
    }

    /// `|self| < 1/10000`, the solver's feasibility tolerance.
    pub fn abs_within_tol(&self) -> (r: bool)
        requires
            self.wf(),
        ensures
            r == within_tol(*self),
    {
        let a: i128 = if self.num < 0 {
            -(self.num as i128)
        } else {
            self.num as i128
        };
        10000 * a < self.den as i128
    }
}

proof fn lemma_i64_mul_bound(x: int, y: int) by (nonlinear_arith)
    requires
        -0x7fff_ffff_ffff_ffff <= x <= 0x7fff_ffff_ffff_ffff,
        -0x7fff_ffff_ffff_ffff <= y <= 0x7fff_ffff_ffff_ffff,
    ensures
        -(0x7fff_ffff_ffff_ffff * 0x7fff_ffff_ffff_ffff) <= x * y,
        x * y <= 0x7fff_ffff_ffff_ffff * 0x7fff_ffff_ffff_ffff,
{
}

proof fn lemma_pos_mul_pos(x: int, y: int) by (nonlinear_arith)
    requires
        x > 0,
        y > 0,
    ensures
        x * y > 0,
{
}

proof fn lemma_nonzero_mul(x: int, y: int) by (nonlinear_arith)
    requires
        x != 0,
        y != 0,
    ensures
        x * y != 0,
{
}

/// The value of a `Rat` as a numerator/denominator pair of unbounded
/// integers; the `q*` functions below are exact rational arithmetic on such
/// pairs, used to state what the solver's operations compute.
pub open spec fn qv(r: Rat) -> (int, int) {
    (r.num as int, r.den as int)
}

pub open spec fn qmul(a: (int, int), b: (int, int)) -> (int, int) {
    (a.0 * b.0, a.1 * b.1)
}

pub open spec fn qsub(a: (int, int), b: (int, int)) -> (int, int) {
    (a.0 * b.1 - b.0 * a.1, a.1 * b.1)
}

pub open spec fn qdiv(a: (int, int), b: (int, int)) -> (int, int) {
    (a.0 * b.1, a.1 * b.0)
}

pub open spec fn qadd(a: (int, int), b: (int, int)) -> (int, int) {
    (a.0 * b.1 + b.0 * a.1, a.1 * b.1)
}

/// The pairs `a` and `b` denote the same rational (cross-multiplication).
pub open spec fn qeq(a: (int, int), b: (int, int)) -> bool {
    a.0 * b.1 == b.0 * a.1
}

/// `a <= b` as exact fractions (meaningful for positive denominators).
pub open spec fn qle(a: (int, int), b: (int, int)) -> bool {
    a.0 * b.1 <= b.0 * a.1
}

/// `a < b` as exact fractions (meaningful for positive denominators).
pub open spec fn qlt(a: (int, int), b: (int, int)) -> bool {
    a.0 * b.1 < b.0 * a.1
}

/// Adding the same pair on the right keeps `qeq`-equal pairs equal.
#[verifier::rlimit(100)]
pub proof fn lemma_qeq_add_r(b: (int, int), a: (int, int), a2: (int, int)) by (nonlinear_arith)
    requires
        qeq(a, a2),
    ensures
        qeq(qadd(b, a), qadd(b, a2)),
{
}

/// Adding the same pair on the left keeps `qeq`-equal pairs equal.
#[verifier::rlimit(100)]
pub proof fn lemma_qeq_add_l(a: (int, int), a2: (int, int), b: (int, int)) by (nonlinear_arith)
    requires
        qeq(a, a2),
    ensures
        qeq(qadd(a, b), qadd(a2, b)),
{
}

/// Subtracting from `qeq`-equal pairs keeps them equal.
#[verifier::rlimit(100)]
pub proof fn lemma_qeq_sub_l(a: (int, int), a2: (int, int), b: (int, int)) by (nonlinear_arith)
    requires
        qeq(a, a2),
    ensures
        qeq(qsub(a, b), qsub(a2, b)),
{
}

/// Adding `qeq`-equal pairs gives `qeq`-equal pairs.
pub proof fn lemma_qeq_add2(a: (int, int), a2: (int, int), b: (int, int), b2: (int, int))
    requires
        qeq(a, a2),
        qeq(b, b2),
        a2.1 != 0,
        b.1 != 0,
    ensures
        qeq(qadd(a, b), qadd(a2, b2)),
{
    lemma_qeq_add_l(a, a2, b);
    lemma_qeq_add_r(a2, b, b2);
    assert(qadd(a2, b).1 != 0) by (nonlinear_arith)
        requires
            a2.1 != 0,
            b.1 != 0;
    lemma_qeq_trans(qadd(a, b), qadd(a2, b), qadd(a2, b2));
}

/// Subtracting `qeq`-equal pairs gives `qeq`-equal pairs.
pub proof fn lemma_qeq_sub2(a: (int, int), a2: (int, int), b: (int, int), b2: (int, int))
    requires
        qeq(a, a2),
        qeq(b, b2),
        a2.1 != 0,
        b.1 != 0,
    ensures
        qeq(qsub(a, b), qsub(a2, b2)),
{
    lemma_qeq_sub_l(a, a2, b);
    lemma_qeq_sub_r(a2, b, b2);
    assert(qsub(a2, b).1 != 0) by (nonlinear_arith)
        requires
            a2.1 != 0,
            b.1 != 0;
    lemma_qeq_trans(qsub(a, b), qsub(a2, b), qsub(a2, b2));
}

/// `qeq` is transitive through a pair with nonzero denominator.
pub proof fn lemma_qeq_trans(a: (int, int), b: (int, int), c: (int, int)) by (nonlinear_arith)
    requires
        qeq(a, b),
        qeq(b, c),
        b.1 != 0,
    ensures
        qeq(a, c),
{
}

/// Multiplying equal rationals by the same pair keeps them equal.
#[verifier::rlimit(100)]
pub proof fn lemma_qeq_mul_r(b: (int, int), a: (int, int), a2: (int, int)) by (nonlinear_arith)
    requires
        qeq(a, a2),
    ensures
        qeq(qmul(b, a), qmul(b, a2)),
{
}

/// Subtracting equal rationals from the same pair keeps them equal.
#[verifier::rlimit(100)]
pub proof fn lemma_qeq_sub_r(b: (int, int), a: (int, int), a2: (int, int)) by (nonlinear_arith)
    requires
        qeq(a, a2),
    ensures
        qeq(qsub(b, a), qsub(b, a2)),
{
}

/// Dividing `qeq`-equal pairs by the same pair keeps them equal.
#[verifier::rlimit(100)]
pub proof fn lemma_qeq_div_l(a: (int, int), a2: (int, int), b: (int, int)) by (nonlinear_arith)
    requires
        qeq(a, a2),
    ensures
        qeq(qdiv(a, b), qdiv(a2, b)),
{
}

/// A product of factors bounded by `m` in magnitude is bounded by `m * m`.
pub proof fn lemma_mul_le_bound(x: int, y: int, m: int) by (nonlinear_arith)
    requires
        0 <= m,
        iabs(x) <= m,
        iabs(y) <= m,
    ensures
        iabs(x * y) <= m * m,
{
}

/// Sign of a product, in all the combinations the solver needs.
pub proof fn lemma_mul_sign(x: int, y: int) by (nonlinear_arith)
    ensures
        x >= 0 && y >= 0 ==> x * y >= 0,
        x <= 0 && y >= 0 ==> x * y <= 0,
        x > 0 && y > 0 ==> x * y > 0,
        x < 0 && y > 0 ==> x * y < 0,
        x == 0 ==> x * y == 0,
{
}

/// A nonpositive rational is at most a nonnegative one, strictly below a
/// positive one.
pub proof fn lemma_nonpos_le_pos(a: Rat, b: Rat) by (nonlinear_arith)
    requires
        a.wf(),
        b.wf(),
        a.num <= 0,
        b.num >= 0,
    ensures
        rat_le(a, b),
        b.num > 0 ==> rat_lt(a, b),
{
}

/// Comparing two `Rat`s equals comparing the exact fractions they stand for.
pub proof fn lemma_ratio_cmp(x: Rat, y: Rat, nx: int, dx: int, ny: int, dy: int)
    by (nonlinear_arith)
    requires
        x.wf(),
        y.wf(),
        is_ratio(x, nx, dx),
        is_ratio(y, ny, dy),
        dx > 0,
        dy > 0,
    ensures
        rat_lt(x, y) <==> nx * dy < ny * dx,
        rat_le(x, y) <==> nx * dy <= ny * dx,
{
}

/// Strict-then-weak order of exact fractions is strict.
pub proof fn lemma_frac_trans_lt_le(n1: int, d1: int, n2: int, d2: int, n3: int, d3: int)
    by (nonlinear_arith)
    requires
        d1 > 0,
        d2 > 0,
        d3 > 0,
        n1 * d2 < n2 * d1,
        n2 * d3 <= n3 * d2,
    ensures
        n1 * d3 < n3 * d1,
{
}

/// The sign of a `Rat` equals the sign of any pair it is `qeq` to, as long
/// as that pair's denominator is positive.
pub proof fn lemma_qeq_sign(e: Rat, p: (int, int)) by (nonlinear_arith)
    requires
        e.wf(),
        qeq(qv(e), p),
        p.1 > 0,
    ensures
        e.num >= 0 <==> p.0 >= 0,
        e.num > 0 <==> p.0 > 0,
        e.num == 0 <==> p.0 == 0,
{
}

/// After a pivot with a positive pivot value, a non-negative right-hand
/// side stays non-negative: either the eliminated coefficient was not
/// positive, or the pivot row won the minimum-ratio test against this row.
/// `br`/`ar` are the row's right-hand side and pivot-column entry, `bp`/`ap`
/// the pivot row's.
pub proof fn lemma_pivot_rhs_sign(br: Rat, ar: Rat, bp: Rat, ap: Rat) by (nonlinear_arith)
    requires
        br.wf(),
        ar.wf(),
        bp.wf(),
        ap.wf(),
        ap.num > 0,
        bp.num >= 0,
        br.num >= 0,
        ar.num <= 0 || (bp.num * ap.den) * (br.den * ar.num) <= (br.num * ar.den) * (bp.den
            * ap.num),
    ensures
        qsub(qv(br), qmul(qv(ar), qdiv(qv(bp), qv(ap)))).1 > 0,
        qsub(qv(br), qmul(qv(ar), qdiv(qv(bp), qv(ap)))).0 >= 0,
{
}

/// Weak-then-strict rational order is strict.
pub proof fn lemma_rat_le_lt_trans(a: Rat, b: Rat, c: Rat) by (nonlinear_arith)
    requires
        a.wf(),
        b.wf(),
        c.wf(),
        rat_le(a, b),
        rat_lt(b, c),
    ensures
        rat_lt(a, c),
{
}

} // verus!
