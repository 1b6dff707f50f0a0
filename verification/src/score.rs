//! Scores of positions: exact fractions, ordered as fractions are.
//!
//! A win is worth more the sooner it comes, one over the number of moves that
//! lead to it, so scores are fractions. They are kept as a numerator and a
//! positive denominator and ordered by cross-multiplication: no rounding, and
//! equal fractions are equal scores however they are written.

use vstd::prelude::*;

verus! {

/// A fraction `num / den`.
pub struct Rational {
    pub num: int,
    pub den: int,
}

impl Rational {
    /// The denominator is positive.
    pub open spec fn wf(self) -> bool {
        self.den > 0
    }

    /// `self < other`, for fractions with positive denominators.
    pub open spec fn lt(self, other: Rational) -> bool {
        self.num * other.den < other.num * self.den
    }

    /// `self <= other`, for fractions with positive denominators.
    pub open spec fn le(self, other: Rational) -> bool {
        self.num * other.den <= other.num * self.den
    }

    /// The two fractions are the same number.
    pub open spec fn eqv(self, other: Rational) -> bool {
        self.num * other.den == other.num * self.den
    }
}

/// The lower sentinel, below every score that a game can have.
pub open spec fn lowest() -> Rational {
    Rational { num: -1000, den: 1 }
}

/// The upper sentinel, above every score that a game can have.
pub open spec fn highest() -> Rational {
    Rational { num: 1000, den: 1 }
}

/// A score as the search computes it.
#[derive(Clone, Copy, Debug)]
pub struct Score {
    pub num: i32,
    pub den: i32,
}

impl View for Score {
    type V = Rational;

    open spec fn view(&self) -> Rational {
        Rational { num: self.num as int, den: self.den as int }
    }
}

impl Score {
    /// The score of a drawn game.
    pub fn zero() -> (score: Score)
        ensures
            score@ == (Rational { num: 0, den: 1 }),
    {
        Score { num: 0, den: 1 }
    }

    /// The lower sentinel.
    pub fn lowest() -> (score: Score)
        ensures
            score@ == lowest(),
    {
        Score { num: -1000, den: 1 }
    }

    /// The upper sentinel.
    pub fn highest() -> (score: Score)
        ensures
            score@ == highest(),
    {
        Score { num: 1000, den: 1 }
    }

    /// Whether `self` is the smaller fraction.
    pub fn less(&self, other: &Score) -> (answer: bool)
        ensures
            answer == self@.lt(other@),
    {
        let left: i64 = Self::cross(self.num, other.den);
        let right: i64 = Self::cross(other.num, self.den);
        left < right
    }

    /// Whether the two are the same fraction.
    pub fn same(&self, other: &Score) -> (answer: bool)
        ensures
            answer == self@.eqv(other@),
    {
        let left: i64 = Self::cross(self.num, other.den);
        let right: i64 = Self::cross(other.num, self.den);
        left == right
    }

    /// The product of two 32-bit numbers, which fits 64 bits.
    fn cross(x: i32, y: i32) -> (product: i64)
        ensures
            product == x * y,
    {
        assert(-0x4000_0000_0000_0000 <= x * y <= 0x4000_0000_0000_0000) by (nonlinear_arith)
            requires
                -0x8000_0000 <= x <= 0x7fff_ffff,
                -0x8000_0000 <= y <= 0x7fff_ffff,
        ;
        (x as i64) * (y as i64)
    }
}

/// Fractions with positive denominators are totally ordered: of two, one is
/// no greater than the other, and `lt` is the strict part of `le`.
pub proof fn lemma_order_total(x: Rational, y: Rational)
    ensures
        x.le(y) || y.le(x),
        x.lt(y) <==> !y.le(x),
        x.eqv(y) <==> x.le(y) && y.le(x),
        x.le(y) <==> x.lt(y) || x.eqv(y),
        x.eqv(y) <==> y.eqv(x),
        x.eqv(x),
{
}

/// The order of fractions is transitive, in each mix of `le` and `lt`.
pub proof fn lemma_order_transitive(x: Rational, y: Rational, z: Rational)
    requires
        x.wf(),
        y.wf(),
        z.wf(),
    ensures
        x.le(y) && y.le(z) ==> x.le(z),
        x.lt(y) && y.le(z) ==> x.lt(z),
        x.le(y) && y.lt(z) ==> x.lt(z),
        x.eqv(y) && y.eqv(z) ==> x.eqv(z),
{
    let (a, b, c, d, e, f) = (x.num, x.den, y.num, y.den, z.num, z.den);
    assert(a * d <= c * b && c * f <= e * d ==> a * f <= e * b) by (nonlinear_arith)
        requires
            b > 0,
            d > 0,
            f > 0,
    {
        if a * d <= c * b && c * f <= e * d {
            assert((a * d) * f <= (c * b) * f);
            assert((c * f) * b <= (e * d) * b);
            assert((a * f) * d <= (e * b) * d);
        }
    }
    assert(a * d < c * b && c * f <= e * d ==> a * f < e * b) by (nonlinear_arith)
        requires
            b > 0,
            d > 0,
            f > 0,
    {
        if a * d < c * b && c * f <= e * d {
            assert((a * d) * f < (c * b) * f);
            assert((c * f) * b <= (e * d) * b);
            assert((a * f) * d < (e * b) * d);
        }
    }
    assert(a * d <= c * b && c * f < e * d ==> a * f < e * b) by (nonlinear_arith)
        requires
            b > 0,
            d > 0,
            f > 0,
    {
        if a * d <= c * b && c * f < e * d {
            assert((a * d) * f <= (c * b) * f);
            assert((c * f) * b < (e * d) * b);
            assert((a * f) * d < (e * b) * d);
        }
    }
    assert(c * b <= a * d && e * d <= c * f ==> e * b <= a * f) by (nonlinear_arith)
        requires
            b > 0,
            d > 0,
            f > 0,
    {
        if c * b <= a * d && e * d <= c * f {
            assert((c * b) * f <= (a * d) * f);
            assert((e * d) * b <= (c * f) * b);
            assert((e * b) * d <= (a * f) * d);
        }
    }
}

} // verus!
