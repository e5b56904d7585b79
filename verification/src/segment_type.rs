//! Portfolio segments and their fixed target fractions.

use vstd::prelude::*;

use crate::fraction::Fraction;

verus! {

/// Enumerates relevant segments of a portfolio.
#[derive(Clone, Copy, Eq, PartialEq, Structural, Hash, Debug)]
pub enum SegmentType {
    Liquid,
    Stable,
    Linear,
    Expo,
    Unknown,
}

/// The fixed target fraction of a segment, in thousandths of the whole.
///
/// These are policy constants of the domain: 6.4%, 9.6%, 24%, 60% and 0%.
pub open spec fn spec_fraction_per_mille(s: SegmentType) -> int {
    match s {
        SegmentType::Liquid => 64,
        SegmentType::Stable => 96,
        SegmentType::Linear => 240,
        SegmentType::Expo => 600,
        SegmentType::Unknown => 0,
    }
}

/// The position of a segment in the canonical order.
pub open spec fn spec_default_index(s: SegmentType) -> int {
    match s {
        SegmentType::Liquid => 0,
        SegmentType::Stable => 1,
        SegmentType::Linear => 2,
        SegmentType::Expo => 3,
        SegmentType::Unknown => 4,
    }
}

/// The canonical order of all segments.
pub open spec fn spec_all() -> Seq<SegmentType> {
    seq![
        SegmentType::Liquid,
        SegmentType::Stable,
        SegmentType::Linear,
        SegmentType::Expo,
        SegmentType::Unknown,
    ]
}

impl SegmentType {
    /// The fixed fraction of the portfolio that this segment should hold.
    pub fn fraction(&self) -> (r: Fraction)
        ensures
            r.num == spec_fraction_per_mille(*self),
            r.den == 1000,
            r.wf(),
    {
        match self {
            SegmentType::Liquid => Fraction { num: 64, den: 1000 },
            SegmentType::Stable => Fraction { num: 96, den: 1000 },
            SegmentType::Linear => Fraction { num: 240, den: 1000 },
            SegmentType::Expo => Fraction { num: 600, den: 1000 },
            SegmentType::Unknown => Fraction { num: 0, den: 1000 },
        }
    }

    /// The segments that carry a non-zero target.
    pub fn known() -> (r: [SegmentType; 4])
        ensures
            r@ == spec_all().take(4),
    {
        let r = [SegmentType::Liquid, SegmentType::Stable, SegmentType::Linear, SegmentType::Expo];
        proof {
            assert(r@ =~= spec_all().take(4));
        }
        r
    }

    /// All segments, in canonical order.
    pub fn all() -> (r: [SegmentType; 5])
        ensures
            r@ == spec_all(),
    {
        let r = [
            SegmentType::Liquid,
            SegmentType::Stable,
            SegmentType::Linear,
            SegmentType::Expo,
            SegmentType::Unknown,
        ];
        proof {
            assert(r@ =~= spec_all());
        }
        r
    }

    /// The position of this segment in the canonical order.
    pub fn default_index(&self) -> (r: usize)
        ensures
            r == spec_default_index(*self),
            spec_all()[r as int] == *self,
    {
        match self {
            SegmentType::Liquid => 0,
            SegmentType::Stable => 1,
            SegmentType::Linear => 2,
            SegmentType::Expo => 3,
            SegmentType::Unknown => 4,
        }
    }
}

} // verus!
