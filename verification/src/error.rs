//! Failures of the codec.

use vstd::prelude::*;

verus! {

/// Why an encode or decode operation gave up.
///
/// Both kinds end the one field in progress; nothing is retried here.
#[derive(Clone, Copy, Debug, PartialEq, Eq, Structural)]
pub enum Error {
    /// A value does not fit the slot that the wire format gives it.
    EncodingError,
    /// The input is truncated, or holds a length or a variable-length
    /// integer that the format does not allow at that place.
    DecodingError,
}

} // verus!
