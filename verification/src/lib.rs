//! Identification and validation of parcel tracking numbers.
//!
//! A courier issues several kinds of tracking number; each kind has a
//! pattern, possibly a check-digit scheme and lookup tables.  [`track`] finds
//! the first kind, over the couriers in order, that a number belongs to.
pub mod courier;
pub mod pattern;
pub mod text;
pub mod validators;

pub use courier::{
    track, AdditionalLookup, AdditionalValidation, Checksum, Courier, LookupEntry, PrependIf,
    SerialNumberFormat, TrackingNumber, TrackingResult, Validation,
};
pub use pattern::{InvalidPattern, PatternSource};
pub use validators::{Luhn, Mod10, Mod37_36, Mod7, S10, SumProduct, Validator};
