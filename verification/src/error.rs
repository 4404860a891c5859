//! The ways in which an operation of this library can fail.

use vstd::prelude::*;

verus! {

/// Why an operation could not give a result.
#[derive(Clone, Copy, Debug, PartialEq, Eq, Structural)]
pub enum RsaError {
    /// A modular inverse was asked for operands that share a factor.
    NoInverseExists,
    /// The plaintext is negative or not below the modulus.
    MessageTooLarge,
    /// A modulus below one was given.
    InvalidModulus,
    /// No probable prime, or no usable pair of them, turned up within the
    /// allowed number of attempts.
    PrimeGenerationExhausted,
    /// The integer is outside the range that a byte string encodes.
    ValueTooLarge,
}

} // verus!
