//! Exact rational numbers: the mathematical model `Rat`, the machine value
//! `Fraction`, and the arithmetic that `num_rational` carries out on them.

use vstd::prelude::*;
use num_rational::Ratio;

verus! {

/// A rational number `num / den`. It is well formed when `den` is positive.
pub struct Rat {
    pub num: int,
    pub den: int,
}

impl Rat {
    pub open spec fn wf(self) -> bool {
        self.den > 0
    }

    /// Both stand for the same number.
    pub open spec fn same(self, other: Rat) -> bool {
        self.num * other.den == other.num * self.den
    }

    /// `self` is the strictly larger number.
    pub open spec fn above(self, other: Rat) -> bool {
        self.num * other.den > other.num * self.den
    }

    /// The integer `n` as a rational.
    pub open spec fn whole(n: int) -> Rat {
        Rat { num: n, den: 1 }
    }

    /// `self` multiplied by the integer `k`.
    pub open spec fn times(self, k: int) -> Rat {
        Rat { num: k * self.num, den: self.den }
    }

    /// `self / d` for a non-zero `d`, with the sign kept in the numerator.
    pub open spec fn over(self, d: Rat) -> Rat {
        if d.num > 0 {
            Rat { num: self.num * d.den, den: self.den * d.num }
        } else {
            Rat { num: -(self.num * d.den), den: -(self.den * d.num) }
        }
    }
}

/// `k` divides `n`.
pub open spec fn divides(k: int, n: int) -> bool {
    k != 0 && n % k == 0
}

/// `n / d` cannot be reduced further: no integer above 1 divides both.
pub open spec fn lowest_terms(n: int, d: int) -> bool {
    forall|k: int| 2 <= k ==> !(#[trigger] divides(k, n) && divides(k, d))
}

pub open spec fn magnitude(n: int) -> int {
    if n < 0 {
        -n
    } else {
        n
    }
}

/// A rational number in machine integers.
#[derive(Clone, Copy, Debug, PartialEq, Eq, Structural)]
pub struct Fraction {
    pub numer: i64,
    pub denom: i64,
}

impl View for Fraction {
    type V = Rat;

    open spec fn view(&self) -> Rat {
        Rat { num: self.numer as int, den: self.denom as int }
    }
}

impl Fraction {
    /// The denominator is positive and the fraction is in lowest terms.
    pub open spec fn wf(&self) -> bool {
        self.denom > 0 && lowest_terms(self.numer as int, self.denom as int)
    }

    /// The integer `n` as a fraction.
    pub fn from_integer(n: i64) -> (f: Fraction)
        ensures
            f@ == Rat::whole(n as int),
            f.wf(),
    {
        let f = Fraction { numer: n, denom: 1 };
        proof {
            assert forall|k: int| 2 <= k implies !(#[trigger] divides(k, n as int) && divides(
                k,
                1,
            )) by {
                assert(1int % k == 1) by (nonlinear_arith)
                    requires
                        2 <= k,
                ;
            }
        }
        f
    }

    pub fn numer(&self) -> (n: i64)
        ensures
            n == self.numer,
    {
        self.numer
    }

    pub fn denom(&self) -> (d: i64)
        ensures
            d == self.denom,
    {
        self.denom
    }
}

/// `Ratio::new` of `num_rational`: the fraction `numer / denom` brought to
/// lowest terms with a positive denominator. Neither part grows in
/// magnitude. A zero denominator and the least machine integer, which the
/// reduction cannot negate, are left out.
#[verifier::external_body]
pub(crate) fn reduce(numer: i64, denom: i64) -> (f: Fraction)
    requires
        denom != 0,
        numer > i64::MIN,
        denom > i64::MIN,
    ensures
        f.wf(),
        f.numer * denom == numer * f.denom,
        f.denom <= magnitude(denom as int),
        magnitude(f.numer as int) <= magnitude(numer as int),
{
    let r = Ratio::new(numer, denom);
    Fraction { numer: *r.numer(), denom: *r.denom() }
}

/// Multiplication of a `Ratio` by an integer in `num_rational`: the product
/// `a * k` in lowest terms with a positive denominator, which does not
/// exceed that of `a`. The product of the numerator and `k` has to fit.
#[verifier::external_body]
pub(crate) fn scale(a: Fraction, k: i64) -> (f: Fraction)
    requires
        a.denom > 0,
        magnitude(a.numer * k) <= i64::MAX,
        k > i64::MIN,
    ensures
        f.wf(),
        f.numer * a.denom == (a.numer * k) * f.denom,
        f.denom <= a.denom,
{
    let r = Ratio::new_raw(a.numer, a.denom) * k;
    Fraction { numer: *r.numer(), denom: *r.denom() }
}

/// Division of one `Ratio` by another in `num_rational`: the quotient
/// `a / b` in lowest terms with a positive denominator. The divisor is not
/// zero, and the cross products of the two fractions have to fit.
#[verifier::external_body]
pub(crate) fn divide(a: Fraction, b: Fraction) -> (f: Fraction)
    requires
        a.denom > 0,
        b.denom > 0,
        b.numer != 0,
        magnitude(a.numer * b.denom) <= i64::MAX,
        magnitude(a.denom * b.numer) <= i64::MAX,
    ensures
        f.wf(),
        f.numer * (a.denom * b.numer) == (a.numer * b.denom) * f.denom,
{
    let r = Ratio::new_raw(a.numer, a.denom) / Ratio::new_raw(b.numer, b.denom);
    Fraction { numer: *r.numer(), denom: *r.denom() }
}

/// The order of `Ratio` in `num_rational`, which compares the two numbers
/// exactly: with positive denominators, `a < b` is the comparison of the
/// cross products.
#[verifier::external_body]
pub(crate) fn less(a: Fraction, b: Fraction) -> (r: bool)
    requires
        a.denom > 0,
        b.denom > 0,
    ensures
        r == b@.above(a@),
{
    Ratio::new_raw(a.numer, a.denom) < Ratio::new_raw(b.numer, b.denom)
}

/// Numbers that stand for the same rationals compare alike.
pub proof fn lemma_above_respects_same(a: Rat, a2: Rat, b: Rat, b2: Rat)
    requires
        a.wf(),
        a2.wf(),
        b.wf(),
        b2.wf(),
        a.same(a2),
        b.same(b2),
    ensures
        a.above(b) == a2.above(b2),
        a.same(b) == a2.same(b2),
{
    let x = a.num * b.den;
    let y = b.num * a.den;
    let x2 = a2.num * b2.den;
    let y2 = b2.num * a2.den;
    let s = a2.den * b2.den;
    let t = a.den * b.den;
    assert(x * s == x2 * t) by (nonlinear_arith)
        requires
            x == a.num * b.den,
            x2 == a2.num * b2.den,
            s == a2.den * b2.den,
            t == a.den * b.den,
            a.num * a2.den == a2.num * a.den,
    ;
    assert(y * s == y2 * t) by (nonlinear_arith)
        requires
            y == b.num * a.den,
            y2 == b2.num * a2.den,
            s == a2.den * b2.den,
            t == a.den * b.den,
            b.num * b2.den == b2.num * b.den,
    ;
    assert(s > 0 && t > 0) by (nonlinear_arith)
        requires
            s == a2.den * b2.den,
            t == a.den * b.den,
            a.den > 0,
            b.den > 0,
            a2.den > 0,
            b2.den > 0,
    ;
    assert((x > y) == (x2 > y2) && (x == y) == (x2 == y2)) by (nonlinear_arith)
        requires
            x * s == x2 * t,
            y * s == y2 * t,
            s > 0,
            t > 0,
    ;
}

/// The order of the rationals is transitive, and strict as soon as one step is.
pub proof fn lemma_above_transitive(a: Rat, b: Rat, c: Rat)
    requires
        a.wf(),
        b.wf(),
        c.wf(),
        !b.above(a),
        !c.above(b),
    ensures
        !c.above(a),
        a.above(b) || b.above(c) ==> a.above(c),
        a.same(c) ==> a.same(b) && b.same(c),
{
    let ab = a.num * b.den;
    let ba = b.num * a.den;
    let bc = b.num * c.den;
    let cb = c.num * b.den;
    let ac = a.num * c.den;
    let ca = c.num * a.den;
    assert(ab * c.den == ac * b.den && ba * c.den == bc * a.den && cb * a.den == ca * b.den)
        by (nonlinear_arith)
        requires
            ab == a.num * b.den,
            ba == b.num * a.den,
            bc == b.num * c.den,
            cb == c.num * b.den,
            ac == a.num * c.den,
            ca == c.num * a.den,
    ;
    assert(ab * c.den >= ba * c.den && (ab > ba ==> ab * c.den > ba * c.den)) by (nonlinear_arith)
        requires
            ab >= ba,
            c.den > 0,
    ;
    assert(bc * a.den >= cb * a.den && (bc > cb ==> bc * a.den > cb * a.den)) by (nonlinear_arith)
        requires
            bc >= cb,
            a.den > 0,
    ;
    assert(ac >= ca && (ac * b.den > ca * b.den ==> ac > ca) && (ac == ca ==> ac * b.den == ca
        * b.den)) by (nonlinear_arith)
        requires
            ac * b.den >= ca * b.den,
            b.den > 0,
    ;
    assert(ab * c.den == ba * c.den ==> ab == ba) by (nonlinear_arith)
        requires
            c.den > 0,
    ;
    assert(bc * a.den == cb * a.den ==> bc == cb) by (nonlinear_arith)
        requires
            a.den > 0,
    ;
}

/// Multiplying two numerators by the same positive number keeps their order.
pub proof fn lemma_scaling_keeps_order(a: Rat, b: Rat, k: int)
    requires
        k > 0,
    ensures
        a.times(k).above(b.times(k)) == a.above(b),
        a.times(k).same(b.times(k)) == a.same(b),
{
    let x = a.num * b.den;
    let y = b.num * a.den;
    assert((k * a.num) * b.den == k * x) by (nonlinear_arith)
        requires
            x == a.num * b.den,
    ;
    assert((k * b.num) * a.den == k * y) by (nonlinear_arith)
        requires
            y == b.num * a.den,
    ;
    assert((k * x > k * y) == (x > y) && (k * x == k * y) == (x == y)) by (nonlinear_arith)
        requires
            k > 0,
    ;
}

} // verus!
