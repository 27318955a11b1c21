use vstd::prelude::*;

verus! {

/// Why a gadget refused to build.
#[derive(Clone, Copy, Debug, PartialEq, Eq, Structural)]
pub enum GadgetError {
    /// The exponent of an S-box is zero or one.
    InvalidExponent,
    /// The state does not have the permutation's width.
    InvalidStateLength,
    /// The key schedule does not have one key for the start and two for each
    /// round.
    InvalidKeyScheduleLength,
    /// A key of the schedule does not have the permutation's width.
    InvalidKeyLength,
}

} // verus!
