//! The failures that the library reports.
use vstd::prelude::*;

verus! {

/// Why an operation could not be carried out.
#[derive(Debug, Clone, Copy, PartialEq, Eq, Structural)]
pub enum CryptoError {
    /// A modular inverse that the computation needs does not exist.
    NoInverseExists,
    /// A Paillier plaintext lies outside `(0, n)`.
    InvalidMessageRange,
    /// The group has no element besides the identity.
    InsufficientGroupOrder,
    /// A point received from outside is not an element of the group.
    PointNotOnCurve,
    /// No Paillier base was found within the allowed number of draws.
    KeyGenerationFailed,
    /// No value coprime to the modulus was drawn within the allowed number
    /// of draws.
    SamplingFailed,
}

} // verus!
