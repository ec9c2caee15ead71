//! The error kinds the protocol surfaces instead of panicking.

use vstd::prelude::*;

verus! {

#[derive(Clone, Copy, Debug, PartialEq, Eq, Structural)]
pub enum Error {
    /// A fold or evaluation named a variable index at or beyond the current
    /// variable count.
    InvalidVariableIndex,
    /// An evaluation table did not have the required power-of-two length, or
    /// two tables that must align did not.
    LengthMismatch,
    /// Fewer sample points were supplied than the degree bound demands.
    InterpolationUnderspecified,
    /// A verifier's recomputed claim disagreed with the held claim: the
    /// ordinary rejection path for a dishonest or corrupted proof.
    SoundnessCheckFailed,
    /// A field element whose representative shares a factor with the modulus
    /// was asked for its inverse.  With a prime modulus only zero does, and
    /// Lagrange denominators over distinct sample points are never zero, but
    /// the check is made at run time rather than assumed.
    NonInvertible,
}

} // verus!
