//! The failure taxonomy of the handshake codec.
//!
//! Every fallible operation of the codec returns exactly one of these
//! kinds; there is no recovery inside the codec and no partial result on
//! failure.

use vstd::prelude::*;

verus! {

/// One specific reason a codec operation failed.
#[derive(Debug, PartialEq, Eq)]
pub enum ProtocolError {
    /// Version text does not split into exactly 3 dot-separated parts.
    MalformedVersion,
    /// A version part is not a valid unsigned 8-bit integer; carries the
    /// offending part's text.
    InvalidVersionComponent(String),
    /// Text exceeds the 255-byte bound of a length-prefixed field.
    TooLong,
    /// The variable-length timestamp quantity is truncated or invalid.
    MalformedVarint,
    /// Length-prefixed bytes are not valid UTF-8.
    Utf8DecodeError,
    /// The buffer was exhausted before a field finished decoding.
    UnexpectedEndOfInput,
    /// An underlying read or write fault, propagated by callers that do
    /// I/O around the codec; the codec itself never produces it.
    IoFailure,
}

} // verus!
