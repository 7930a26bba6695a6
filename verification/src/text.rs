//! The one place where byte slices become text.

use vstd::prelude::*;
use vstd::utf8::{decode_utf8, valid_utf8};

verus! {

/// Relies on core::str::from_utf8: it returns Ok exactly when the slice is
/// valid UTF-8, and the resulting str views the characters those bytes
/// encode.
#[verifier::external_body]
pub(crate) fn bytes_to_str<'a>(bytes: &'a [u8]) -> (r: Option<&'a str>)
    ensures
        r is Some <==> valid_utf8(bytes@),
        r matches Some(s) ==> s@ == decode_utf8(bytes@),
{
    core::str::from_utf8(bytes).ok()
}

} // verus!
