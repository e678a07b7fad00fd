use vstd::prelude::*;

verus! {

/// Everything that can go wrong in the server core.
#[derive(Clone, Copy, Debug, PartialEq, Eq, Structural)]
pub enum Error {
    /// A datagram shorter than the minimum request length.
    RequestTooShort,
    /// A datagram without the two-tag `NONC`, `PAD` request structure.
    InvalidRequest,
    /// Bytes that are not a well-formed tagged message.
    InvalidMessage,
    /// A field added out of strictly ascending tag order.
    TagNotStrictlyIncreasing,
    /// A message that would exceed the size or field-count limits.
    MessageTooLarge,
    /// A configuration that fails validation.
    InvalidConfiguration,
}

} // verus!
