//! Exact rational values.
//!
//! Derived portfolio figures (target portions, market values, drift) are
//! ratios of integers. Keeping them as a numerator over a positive
//! denominator makes every identity in this crate exact instead of
//! approximate.

use vstd::prelude::*;

verus! {

/// An exact rational number: `num / den`, with `den` always positive.
///
/// Two fractions stand for the same value exactly when they cross-multiply
/// equally; see [`frac_eq`].
#[derive(Clone, Copy, PartialEq, Eq, Structural, Debug)]
pub struct Fraction {
    pub num: i128,
    pub den: i128,
}

/// Mathematical equality of two fractions: `a.num / a.den == b.num / b.den`.
pub open spec fn frac_eq(a: Fraction, b: Fraction) -> bool {
    a.num * b.den == b.num * a.den
}

impl Fraction {
    /// The denominator must be positive.
    pub open spec fn wf(self) -> bool {
        self.den > 0
    }

    pub fn new(num: i128, den: i128) -> (r: Fraction)
        requires
            den > 0,
        ensures
            r.num == num,
            r.den == den,
            r.wf(),
    {
        Fraction { num, den }
    }

    /// The fraction standing for zero.
    pub fn zero() -> (r: Fraction)
        ensures
            r.num == 0,
            r.den == 1,
            r.wf(),
    {
        Fraction { num: 0, den: 1 }
    }

    /// Exact difference `self - other`.
    ///
    /// The bounds in `requires` are machine limits: the cross products must
    /// fit in an `i128`.
    pub fn sub(self, other: Fraction) -> (r: Fraction)
        requires
            self.wf(),
            other.wf(),
            i128::MIN <= self.num * other.den <= i128::MAX,
            i128::MIN <= other.num * self.den <= i128::MAX,
            i128::MIN <= self.num * other.den - other.num * self.den <= i128::MAX,
            self.den * other.den <= i128::MAX,
        ensures
            r.num == self.num * other.den - other.num * self.den,
            r.den == self.den * other.den,
            r.wf(),
    {
        proof {
            vstd::arithmetic::mul::lemma_mul_strictly_positive(self.den as int, other.den as int);
        }
        Fraction { num: self.num * other.den - other.num * self.den, den: self.den * other.den }
    }

    /// Exact quotient `self / other`, for a positive `other`.
    ///
    /// The bounds in `requires` are machine limits.
    pub fn div_pos(self, other: Fraction) -> (r: Fraction)
        requires
            self.wf(),
            other.wf(),
            other.num > 0,
            i128::MIN <= self.num * other.den <= i128::MAX,
            self.den * other.num <= i128::MAX,
        ensures
            r.num == self.num * other.den,
            r.den == self.den * other.num,
            r.wf(),
    {
        proof {
            vstd::arithmetic::mul::lemma_mul_strictly_positive(self.den as int, other.num as int);
        }
        Fraction { num: self.num * other.den, den: self.den * other.num }
    }

    /// Whether `self` and `other` stand for the same rational value.
    ///
    /// The bounds in `requires` are machine limits for the cross products.
    pub fn same_value(self, other: Fraction) -> (r: bool)
        requires
            self.wf(),
            other.wf(),
            i128::MIN <= self.num * other.den <= i128::MAX,
            i128::MIN <= other.num * self.den <= i128::MAX,
        ensures
            r == frac_eq(self, other),
    {
        self.num * other.den == other.num * self.den
    }
}

} // verus!
