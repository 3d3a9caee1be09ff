//! Errors of the codec.
use vstd::prelude::*;

verus! {

/// Why a tree could not be built or a container could not be decoded.
#[derive(Debug, Clone, Copy, PartialEq, Eq, Structural)]
pub enum CodecError {
    /// A tree was asked for an empty frequency table.
    EmptyInput,
    /// The tree header does not parse into exactly one complete tree.
    MalformedTree,
    /// The payload ends before its last code is complete, or is not made of whole codes.
    TruncatedPayload,
    /// A length field of the container is missing.
    MissingLength,
}

} // verus!
