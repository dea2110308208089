//! The failures that decoding and payload extraction report.

use vstd::prelude::*;

verus! {

/// Why a response could not be decoded, or why its payload could not be taken.
#[derive(Debug, Clone, Copy, PartialEq, Eq, Structural)]
pub enum Error {
    /// The buffer does not begin with the literal `HTTP/1.1`.
    UnsupportedHttpVersion,
    /// A delimiter the format requires is missing, or the status code is not
    /// a decimal number that fits in sixteen bits.
    MalformedFormat,
    /// A payload was asked of a response that carries no body.
    ExpectedBody,
}

} // verus!
