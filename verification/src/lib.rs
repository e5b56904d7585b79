//! Portfolio squads, single-writer command handling, consistent snapshots,
//! and target-allocation drift reporting.
//!
//! All monetary quantities are exact: an [`amount::Amount`] is a fixed-point
//! count of millionths of a currency unit, and derived ratios (portions,
//! market values, targets) are exact rational numbers ([`fraction::Fraction`]).

pub mod amount;
pub mod asset;
pub mod chad;
pub mod codec;
pub mod fraction;
pub mod model;
pub mod portfolio;
pub mod segment_type;
pub mod storage_link;
