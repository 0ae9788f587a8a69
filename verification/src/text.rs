//! Conversion of raw bytes into owned text.

use vstd::prelude::*;
use vstd::utf8::{decode_utf8, valid_utf8};

verus! {

/// Relies on `core::str::from_utf8`: it returns `Ok` exactly when the bytes
/// are a valid UTF-8 encoding, and then yields the text those bytes encode.
/// The UTF-8 model is vstd's (`valid_utf8`, `decode_utf8`).
#[verifier::external_body]
pub(crate) fn bytes_to_string(v: &[u8]) -> (r: Option<String>)
    ensures
        r is Some <==> valid_utf8(v@),
        r matches Some(s) ==> s@ == decode_utf8(v@),
{
    match core::str::from_utf8(v) {
        Ok(s) => Some(s.to_string()),
        Err(_) => None,
    }
}

} // verus!
