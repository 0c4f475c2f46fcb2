//! Terminal errors of the codec core.

use vstd::prelude::*;

verus! {

/// Every primitive operation reports its failure to the immediate caller;
/// there is no recovery inside the core.
#[derive(Debug, Clone, Copy, PartialEq, Eq, Structural)]
pub enum Error {
    /// A push could not be completed: the sink has no remaining capacity.
    SerializeBufferFull,
    /// A take could not be completed: fewer nibbles remain than requested.
    DeserializeUnexpectedEnd,
    /// A variable-length integer carried a continuation flag on its eleventh
    /// nibble, which no 32-bit value ever produces.
    DeserializeBadVlu32N,
}

} // verus!
