//! Error type for the codec.

use vstd::prelude::*;

verus! {

/// Failure kinds of the codec. Both are deterministic functions of the
/// input: a call that fails will fail the same way on every retry.
#[derive(Clone, Copy, Debug, Eq, Hash, Ord, PartialEq, PartialOrd, Structural)]
pub enum ShortError {
    /// The string to decode holds a symbol that is not in the configured
    /// alphabet.
    InvalidString,
    /// The value of the string to decode does not fit in the codec's working
    /// unsigned integer type.
    InvalidNumber,
}

impl ShortError {
    /// A short description of the error, in place of `Display`.
    pub fn message(&self) -> (r: &'static str)
        ensures
            *self is InvalidString ==> r@ == "Not a valid string to decode"@,
            *self is InvalidNumber ==> r@ == "Not a valid number to decode"@,
    {
        match *self {
            ShortError::InvalidString => "Not a valid string to decode",
            ShortError::InvalidNumber => "Not a valid number to decode",
        }
    }
}

} // verus!
