//! Bytes to text.

use vstd::prelude::*;
use vstd::utf8::{decode_utf8, valid_utf8};
use crate::wire::text_of;

verus! {

/// Calls `core::str::from_utf8`, which is trusted here and not proved: it
/// accepts `bytes` exactly when they are well-formed UTF-8, and the string
/// slice it then gives holds the characters that they encode.
#[verifier::external_body]
fn utf8_str(bytes: &[u8]) -> (text: Option<&str>)
    ensures
        text is Some <==> valid_utf8(bytes@),
        text matches Some(s) ==> s@ == decode_utf8(bytes@),
{
    core::str::from_utf8(bytes).ok()
}

/// The text that `bytes` encode as UTF-8, or `None` where they encode none.
pub fn decode_text(bytes: &[u8]) -> (text: Option<String>)
    ensures
        match text_of(bytes@) {
            Some(chars) => text matches Some(t) && t@ == chars,
            None => text is None,
        },
{
    match utf8_str(bytes) {
        Some(s) => Some(s.to_owned()),
        None => None,
    }
}

} // verus!
