//! Text fields of a record: raw bytes read as UTF-8.
use crate::error::DecodeError;
use vstd::prelude::*;
use vstd::string::StringSliceAdditionalSpecFns;
use vstd::utf8::{decode_utf8, encode_utf8_decode_utf8, valid_utf8};

verus! {

/// `core::str::Utf8Error`, the error of `core::str::from_utf8`, as an opaque
/// type: nothing is known of what a value holds.
#[verifier::external_type_specification]
#[verifier::external_body]
pub struct ExUtf8Error(core::str::Utf8Error);

/// `core::str::from_utf8`: succeeds exactly on well-formed UTF-8, and the
/// string slice it returns lies over the very bytes it was given. Taken on
/// trust from the standard library's documentation; nothing is said of what
/// the error holds.
pub assume_specification[ core::str::from_utf8 ](v: &[u8]) -> (res: Result<
    &str,
    core::str::Utf8Error,
>)
    ensures
        res is Ok <==> valid_utf8(v@),
        res is Ok ==> res->Ok_0.spec_bytes() == v@,
;

/// The text that a run of bytes encodes, where they are valid UTF-8.
pub open spec fn text_of(bytes: Seq<u8>) -> Result<Seq<char>, DecodeError> {
    if valid_utf8(bytes) {
        Ok(decode_utf8(bytes))
    } else {
        Err(DecodeError::InvalidSymbolEncoding)
    }
}

/// Reads a run of bytes as text, without copying.
pub fn bytes2text(bytes: &[u8]) -> (text: Result<&str, DecodeError>)
    ensures
        match text {
            Ok(s) => text_of(bytes@) == Ok::<Seq<char>, DecodeError>(s@),
            Err(e) => text_of(bytes@) == Err::<Seq<char>, DecodeError>(e),
        },
{
    match core::str::from_utf8(bytes) {
        Ok(s) => {
            proof {
                encode_utf8_decode_utf8(s@);
            }
            Ok(s)
        },
        Err(_) => Err(DecodeError::InvalidSymbolEncoding),
    }
}

} // verus!
