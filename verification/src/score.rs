//! Exact fractions.
//!
//! An impurity score is a sum of products of class fractions. It is kept as
//! an exact fraction of two naturals, never rounded, so that two scores
//! compare the same way on every machine. [`Ratio`] is the mathematical
//! fraction and [`Score`] the value that holds one at run time.
use crate::natural::Natural;
use vstd::prelude::*;

verus! {

/// A fraction of two integers. Its arithmetic does not reduce: the numerator
/// and the denominator of a result are the plain products and sums of the
/// operands' parts.
pub ghost struct Ratio {
    pub num: int,
    pub den: int,
}

impl Ratio {
    /// The fraction `0 / 1`.
    pub open spec fn zero() -> Ratio {
        Ratio { num: 0, den: 1 }
    }

    /// The fraction `1 / 1`.
    pub open spec fn one() -> Ratio {
        Ratio { num: 1, den: 1 }
    }

    /// The fraction `num / den` of two counts.
    pub open spec fn of(num: nat, den: nat) -> Ratio {
        Ratio { num: num as int, den: den as int }
    }

    /// A fraction with a positive denominator.
    pub open spec fn positive_den(self) -> bool {
        self.den > 0
    }

    /// The product: numerator times numerator over denominator times
    /// denominator.
    pub open spec fn times(self, other: Ratio) -> Ratio {
        Ratio { num: self.num * other.num, den: self.den * other.den }
    }

    /// The sum, over the product of the denominators.
    pub open spec fn plus(self, other: Ratio) -> Ratio {
        Ratio { num: self.num * other.den + other.num * self.den, den: self.den * other.den }
    }

    /// The difference, over the product of the denominators.
    pub open spec fn minus(self, other: Ratio) -> Ratio {
        Ratio { num: self.num * other.den - other.num * self.den, den: self.den * other.den }
    }

    /// Strictly smaller, for fractions with positive denominators.
    pub open spec fn lt(self, other: Ratio) -> bool {
        self.num * other.den < other.num * self.den
    }

    /// Equal as fractions: `1/2` and `2/4` are the same.
    pub open spec fn same(self, other: Ratio) -> bool {
        self.num * other.den == other.num * self.den
    }
}

/// A fraction below one that is not above another is below that other.
pub proof fn lemma_lt_then_not_above(a: Ratio, b: Ratio, c: Ratio)
    requires
        a.positive_den(),
        b.positive_den(),
        c.positive_den(),
        a.lt(b),
        !c.lt(b),
    ensures
        a.lt(c),
{
    let (an, ad) = (a.num, a.den);
    let (bn, bd) = (b.num, b.den);
    let (cn, cd) = (c.num, c.den);
    assert((an * bd) * cd < (bn * ad) * cd) by (nonlinear_arith)
        requires
            an * bd < bn * ad,
            cd > 0,
    ;
    assert((bn * cd) * ad <= (cn * bd) * ad) by (nonlinear_arith)
        requires
            bn * cd <= cn * bd,
            ad > 0,
    ;
    assert((an * bd) * cd == (an * cd) * bd) by (nonlinear_arith);
    assert((bn * ad) * cd == (bn * cd) * ad) by (nonlinear_arith);
    assert((cn * bd) * ad == (cn * ad) * bd) by (nonlinear_arith);
    assert(an * cd < cn * ad) by (nonlinear_arith)
        requires
            (an * cd) * bd < (cn * ad) * bd,
            bd > 0,
    ;
}

/// What is taken from `base` is positive exactly when `x` is below `base`.
pub proof fn lemma_difference_positive(base: Ratio, x: Ratio)
    ensures
        Ratio::zero().lt(base.minus(x)) <==> x.lt(base),
{
}

/// Taking more from `base` leaves less.
pub proof fn lemma_difference_order(base: Ratio, x: Ratio, y: Ratio)
    requires
        base.positive_den(),
    ensures
        base.minus(x).lt(base.minus(y)) <==> y.lt(x),
{
    let (bn, bd) = (base.num, base.den);
    let (xn, xd) = (x.num, x.den);
    let (yn, yd) = (y.num, y.den);
    let square = bd * bd;
    assert(square > 0) by (nonlinear_arith)
        requires
            square == bd * bd,
            bd > 0,
    ;
    lemma_split_difference(bn * xd, xn * bd, bd * yd);
    assert((bn * xd) * (bd * yd) == ((bn * xd) * bd) * yd) by (nonlinear_arith);
    assert((xn * bd) * (bd * yd) == (xn * yd) * (bd * bd)) by (nonlinear_arith);
    lemma_split_difference(bn * yd, yn * bd, bd * xd);
    assert((bn * yd) * (bd * xd) == ((bn * xd) * bd) * yd) by (nonlinear_arith);
    assert((yn * bd) * (bd * xd) == (yn * xd) * (bd * bd)) by (nonlinear_arith);
    assert(((yn * xd) * square < (xn * yd) * square) <==> (yn * xd < xn * yd)) by (nonlinear_arith)
        requires
            square > 0,
    ;
}

proof fn lemma_split_difference(a: int, b: int, c: int)
    ensures
        (a - b) * c == a * c - b * c,
{
    assert((a - b) * c == a * c - b * c) by (nonlinear_arith);
}

/// Fractions that are the same stay the same when both are multiplied by a
/// third.
pub proof fn lemma_times_same(a: Ratio, b: Ratio, r: Ratio)
    requires
        a.same(b),
    ensures
        a.times(r).same(b.times(r)),
{
    let (an, ad) = (a.num, a.den);
    let (bn, bd) = (b.num, b.den);
    let (rn, rd) = (r.num, r.den);
    assert((an * rn) * (bd * rd) == (bn * rn) * (ad * rd)) by (nonlinear_arith)
        requires
            an * bd == bn * ad,
    ;
}

/// An exact non-negative fraction.
#[derive(Debug)]
pub struct Score {
    num: Natural,
    den: Natural,
}

impl View for Score {
    type V = Ratio;

    closed spec fn view(&self) -> Ratio {
        Ratio { num: self.num@ as int, den: self.den@ as int }
    }
}

impl Score {
    /// The fraction `num / den`.
    pub fn from_counts(num: usize, den: usize) -> (r: Score)
        ensures
            r@ == Ratio::of(num as nat, den as nat),
    {
        Score { num: Natural::from_u64(num as u64), den: Natural::from_u64(den as u64) }
    }

    /// The score `0 / 1`.
    pub fn zero() -> (r: Score)
        ensures
            r@ == Ratio::zero(),
    {
        Score::from_counts(0, 1)
    }

    /// The score `1 / 1`.
    pub fn one() -> (r: Score)
        ensures
            r@ == Ratio::one(),
    {
        Score::from_counts(1, 1)
    }

    /// The numerator, as it is held: scores are not reduced.
    pub fn numerator(&self) -> (n: &Natural)
        ensures
            n@ == self@.num,
    {
        &self.num
    }

    /// The denominator, as it is held.
    pub fn denominator(&self) -> (n: &Natural)
        ensures
            n@ == self@.den,
    {
        &self.den
    }

    /// The product of two scores.
    pub fn times(&self, other: &Score) -> (r: Score)
        ensures
            r@ == self@.times(other@),
    {
        Score { num: self.num.mul(&other.num), den: self.den.mul(&other.den) }
    }

    /// The sum of two scores.
    pub fn plus(&self, other: &Score) -> (r: Score)
        ensures
            r@ == self@.plus(other@),
    {
        let left = self.num.mul(&other.den);
        let right = other.num.mul(&self.den);
        Score { num: left.add(&right), den: self.den.mul(&other.den) }
    }

    /// Whether this score is below `other`, by cross-multiplication. It is
    /// the order of the fractions where both denominators are positive.
    pub fn lt(&self, other: &Score) -> (b: bool)
        ensures
            b == self@.lt(other@),
    {
        let left = self.num.mul(&other.den);
        let right = other.num.mul(&self.den);
        left.lt(&right)
    }

    /// Whether the two scores are equal as fractions.
    pub fn same(&self, other: &Score) -> (b: bool)
        ensures
            b == self@.same(other@),
    {
        let left = self.num.mul(&other.den);
        let right = other.num.mul(&self.den);
        left.same(&right)
    }
}

} // verus!
