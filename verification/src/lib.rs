//! Core of a nibble-granularity binary codec: serialization sinks and a
//! deserialization source that pack data two nibbles per byte, high nibble
//! first, plus a nibble-oriented variable-length encoding of `u32` values.

pub mod de;
pub mod error;
pub mod nibbles;
pub mod ser;
pub mod vlu32n;
