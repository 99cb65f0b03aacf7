//! The failures that the scheme reports to its callers.

use vstd::prelude::*;

verus! {

/// What can go wrong in an operation of the scheme.
#[derive(Clone, Copy, Debug, PartialEq, Eq, Structural)]
pub enum MayoError {
    /// A byte string is shorter than its format requires, or a key, salt or
    /// signature has not the size that the parameter set fixes.
    InvalidLength,
    /// No attempt within the retry budget gave a linear system of full rank.
    SigningExhausted,
}

} // verus!
