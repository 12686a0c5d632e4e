//! Why a definition is refused.

use vstd::prelude::*;
use crate::ast::{Value, Values};

verus! {

/// A refused definition; positions count variants or fields from zero.
#[derive(Debug)]
pub enum Error {
    /// A struct body was raised as an enum, or the other way round.
    Internal,
    /// The enum is wider than 128 bits.
    EnumTooLarge,
    /// The enum has no variant.
    ZeroVariants,
    /// A value of the variant does not fit the enum's width.
    ExceedsMax { variant: usize, max: u128 },
    /// The variant is a second default (`_`).
    ConflictDefault { variant: usize },
    /// The variant holds `value`, which overlaps a value before it.
    Overlap { variant: usize, value: Value },
    /// Values below `start` belong to no variant.
    UncoveredBelow { start: u128 },
    /// Values `start..=max` belong to no variant.
    UncoveredAbove { start: u128, max: u128 },
    /// These values between variants belong to none.
    UncoveredGaps(Values),
    /// The field has no bits.
    ZeroSizeField { name: String },
    /// The field has no type and is wider than 128 bits.
    FieldTooLarge { name: String },
    /// The field reaches past the end of the struct.
    FieldExceeds { name: String },
}

} // verus!
