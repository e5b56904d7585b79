//! Fixed-point quantities.
//!
//! Prices, share counts and cash are carried as an exact count of
//! millionths of a unit, so sums and comparisons are exact.

use vstd::prelude::*;

verus! {

/// Millionths of a unit in one whole unit.
pub const MICROS_PER_UNIT: i64 = 1_000_000;

/// A quantity of something: a price, a share count, or cash.
///
/// Stored as an exact count of millionths of a unit.
#[derive(Clone, Copy, PartialEq, Eq, Structural, Debug)]
pub struct Amount {
    pub micros: i64,
}

impl Amount {
    pub fn zero() -> (r: Amount)
        ensures
            r.micros == 0,
    {
        Amount { micros: 0 }
    }

    /// The amount of `micros` millionths of a unit.
    pub fn from_micros(micros: i64) -> (r: Amount)
        ensures
            r.micros == micros,
    {
        Amount { micros }
    }

    /// The amount of `units` whole units.
    pub fn from_units(units: i64) -> (r: Amount)
        requires
            units * MICROS_PER_UNIT as int <= i64::MAX,
            i64::MIN <= units * MICROS_PER_UNIT as int,
        ensures
            r.micros == units * MICROS_PER_UNIT as int,
    {
        Amount { micros: units * MICROS_PER_UNIT }
    }

    pub fn micros(self) -> (r: i64)
        ensures
            r == self.micros,
    {
        self.micros
    }

    /// This amount as an exact fraction of whole units.
    pub fn as_fraction(self) -> (r: crate::fraction::Fraction)
        ensures
            r.num == self.micros as int,
            r.den == MICROS_PER_UNIT as int,
            r.wf(),
    {
        crate::fraction::Fraction { num: self.micros as i128, den: MICROS_PER_UNIT as i128 }
    }
}

} // verus!
