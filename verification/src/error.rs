//! The ways in which an operation of this library can fail.

use vstd::prelude::*;

verus! {

/// Why an operation was refused. Every refusal is reported before any
/// partial result is handed out, and none is retried.
#[derive(Clone, Copy, PartialEq, Eq, Structural, Debug)]
pub enum Error {
    /// A sampling bound was zero or negative.
    InvalidBound,
    /// Two sequences that must pair up differ in length, or are empty where
    /// at least one pair is needed.
    LengthMismatch,
    /// A group element is not a reduced form of the expected discriminant,
    /// or cannot be composed within it.
    MalformedElement,
    /// Decryption arrived at an element outside the message subgroup.
    DecryptionFailure,
    /// The randomness source has no fresh output left. This is fatal for the
    /// source: it never falls back to output it has given before.
    RandomnessExhausted,
}

} // verus!
