//! Advisory conditions.
//!
//! The decode and mutation paths report advisory findings — count
//! mismatches, children outside declared bounds, renamed tiers, clamped
//! bounds — as values returned beside the primary result.  They never
//! change an operation's outcome.

use crate::decimal::{u64_to_string, Decimal};
use vstd::prelude::*;

verus! {

/// One advisory finding.
#[derive(Debug)]
pub enum Warning {
    /// The document declared `declared` tiers but `found` were decoded.
    TierCountMismatch { declared: u64, found: u64 },
    /// Tier `tier` declared `declared` child records but `found` were decoded.
    SizeMismatch { tier: String, declared: u64, found: u64 },
    /// Tier `tier` holds a child at `value`, before the bound `bound`.
    BelowStart { tier: String, value: Decimal, bound: Decimal },
    /// Tier `tier` holds a child at `value`, past the bound `bound`.
    PastEnd { tier: String, value: Decimal, bound: Decimal },
    /// Tier `tier` begins before the document's lower bound.
    TierBeforeDocument { tier: String },
    /// Tier `tier` ends past the document's upper bound.
    TierPastDocument { tier: String },
    /// A lower bound may not exceed the upper bound; it was clamped to it.
    StartClampedToEnd,
    /// A lower bound may not be negative; it was clamped to zero.
    StartClampedToZero,
    /// An upper bound may not fall under the lower bound; it was clamped to it.
    EndClampedToStart,
    /// An upper bound may not be negative; it was clamped to zero.
    EndClampedToZero,
    /// A tier named `from` already existed; the new tier was renamed to `to`.
    TierRenamed { from: String, to: String },
    /// No tier of name `name` exists.
    NoSuchTier { name: String },
}

impl Warning {
    /// A human-readable account of the finding.
    pub fn message(&self) -> (r: String)
        ensures
            r@.len() > 0,
    {
        let mut m: String = "Warning: ".to_owned();
        proof {
            reveal_strlit("Warning: ");
        }
        match self {
            Warning::TierCountMismatch { declared, found } => {
                m.append("TextGrid has a size of ");
                m.append(u64_to_string(*declared).as_str());
                m.append(" but ");
                m.append(u64_to_string(*found).as_str());
                m.append(" tiers were found");
            },
            Warning::SizeMismatch { tier, declared, found } => {
                m.append("Tier `");
                m.append(tier.as_str());
                m.append("` has a size of ");
                m.append(u64_to_string(*declared).as_str());
                m.append(" but ");
                m.append(u64_to_string(*found).as_str());
                m.append(" children were found");
            },
            Warning::BelowStart { tier, value, bound } => {
                m.append("Tier `");
                m.append(tier.as_str());
                m.append("` has a minimum point of ");
                m.append(value.to_text().as_str());
                m.append(" but the set xmin is ");
                m.append(bound.to_text().as_str());
            },
            Warning::PastEnd { tier, value, bound } => {
                m.append("Tier `");
                m.append(tier.as_str());
                m.append("` has a maximum point of ");
                m.append(value.to_text().as_str());
                m.append(" but the set xmax is ");
                m.append(bound.to_text().as_str());
            },
            Warning::TierBeforeDocument { tier } => {
                m.append("Tier `");
                m.append(tier.as_str());
                m.append("` begins before the TextGrid's xmin");
            },
            Warning::TierPastDocument { tier } => {
                m.append("Tier `");
                m.append(tier.as_str());
                m.append("` ends past the TextGrid's xmax");
            },
            Warning::StartClampedToEnd => {
                m.append("xmin cannot be greater than xmax. Setting to xmax.");
            },
            Warning::StartClampedToZero => {
                m.append("xmin cannot be less than 0. Setting to 0.");
            },
            Warning::EndClampedToStart => {
                m.append("xmax cannot be less than xmin. Setting to xmin.");
            },
            Warning::EndClampedToZero => {
                m.append("xmax cannot be less than 0. Setting to 0.");
            },
            Warning::TierRenamed { from, to } => {
                m.append("Tier name `");
                m.append(from.as_str());
                m.append("` already exists. Renaming to `");
                m.append(to.as_str());
                m.append("`");
            },
            Warning::NoSuchTier { name } => {
                m.append("Tier `");
                m.append(name.as_str());
                m.append("` does not exist therefore cannot be deleted.");
            },
        }
        m
    }
}

} // verus!
