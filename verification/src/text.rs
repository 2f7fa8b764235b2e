//! Short text values for length-prefixed wire fields.
//!
//! A `TinyString` holds UTF-8 text whose byte length fits in a single
//! byte, so the length prefix on the wire is always exactly one byte.

use vstd::prelude::*;
use vstd::utf8::decode_utf8;
use vstd::utf8::encode_utf8;
use vstd::utf8::valid_utf8;

use crate::error::ProtocolError;

verus! {

/// The byte bound of a length-prefixed text field.
pub const TINY_STRING_MAX_BYTES: usize = 255;

/// A UTF-8 text value of at most 255 bytes.
#[derive(Debug, PartialEq, Eq, Default)]
pub struct TinyString(pub String);

impl View for TinyString {
    type V = Seq<char>;

    open spec fn view(&self) -> Seq<char> {
        self.0@
    }
}

impl TinyString {
    /// UTF-8 byte length of the stored text.
    pub open spec fn spec_byte_len(&self) -> nat {
        encode_utf8(self@).len()
    }

    /// The stored text fits the one-byte length prefix.
    pub open spec fn wf(&self) -> bool {
        self.spec_byte_len() <= 255
    }

    /// Wraps `value`, or fails with `TooLong` when its UTF-8 byte length
    /// exceeds 255.
    pub fn construct(value: &str) -> (r: Result<TinyString, ProtocolError>)
        ensures
            encode_utf8(value@).len() <= 255 ==> r is Ok && r.unwrap()@ == value@,
            encode_utf8(value@).len() > 255 ==> r == Err::<TinyString, ProtocolError>(
                ProtocolError::TooLong,
            ),
            r is Ok ==> r.unwrap().wf(),
    {
        let byte_len = value.as_bytes().len();
        if byte_len > TINY_STRING_MAX_BYTES {
            return Err(ProtocolError::TooLong);
        }
        Ok(TinyString(value.to_owned()))
    }

    /// The stored text, as an owned copy.
    pub fn to_text(&self) -> (r: String)
        ensures
            r@ == self@,
    {
        self.0.clone()
    }
}

/// Relies on `String::from_utf8`: it succeeds exactly on valid UTF-8
/// input, and the returned string consists of the characters the bytes
/// decode to.
#[verifier::external_body]
pub(crate) fn string_from_utf8(bytes: Vec<u8>) -> (r: Result<String, ProtocolError>)
    ensures
        valid_utf8(bytes@) ==> r is Ok && r.unwrap()@ == decode_utf8(bytes@),
        !valid_utf8(bytes@) ==> r is Err && r.unwrap_err() == ProtocolError::Utf8DecodeError,
{
    match String::from_utf8(bytes) {
        Ok(s) => Ok(s),
        Err(_) => Err(ProtocolError::Utf8DecodeError),
    }
}

} // verus!
