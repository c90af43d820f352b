//! Trusted boundary to the `base64` crate.
//!
//! The wire codec stores arbitrary text inside a `key:value;` record, so
//! every value is passed through base64 (standard alphabet, no padding)
//! first.  The transform itself is named by the uninterpreted function
//! [`base64_of`]; the wrappers below tie the crate's calls to that name.

use base64::prelude::Engine;
use vstd::prelude::*;

verus! {

/// The base64 rendering (standard alphabet, no padding) of the UTF-8 bytes
/// of a character sequence.
pub uninterp spec fn base64_of(s: Seq<char>) -> Seq<char>;

/// Relies on base64's `BASE64_STANDARD_NO_PAD.encode`: the output is drawn
/// from the standard alphabet (`A`-`Z`, `a`-`z`, `0`-`9`, `+`, `/`) without
/// padding, so it never holds the record delimiters `;` and `:`, and it is a
/// function of the input bytes alone.
#[verifier::external_body]
pub(crate) fn base64_encode(data: &str) -> (r: String)
    ensures
        r@ == base64_of(data@),
        forall|i: int| 0 <= i < r@.len() ==> r@[i] != ';' && r@[i] != ':',
{
    base64::prelude::BASE64_STANDARD_NO_PAD.encode(data.as_bytes())
}

/// Relies on base64's `BASE64_STANDARD_NO_PAD.decode` and on
/// `String::from_utf8`.  The engine accepts only canonical unpadded input
/// (no padding characters, no set trailing bits), so decoding succeeds
/// exactly on the strings that `BASE64_STANDARD_NO_PAD.encode` produces,
/// and re-encoding the decoded bytes gives the input back.  The call
/// returns `None` when the input is not such an encoding or the decoded
/// bytes are not UTF-8.  Since only alphabet symbols are accepted, an input
/// that decodes successfully held no `;` and no `:`.
#[verifier::external_body]
pub(crate) fn base64_decode_text(data: &str) -> (r: Option<String>)
    ensures
        forall|s: Seq<char>| #[trigger] base64_of(s) == data@ ==> r is Some && r->Some_0@ == s,
        r is Some ==> base64_of(r->Some_0@) == data@,
        r is Some ==> forall|i: int| 0 <= i < data@.len() ==> data@[i] != ';' && data@[i] != ':',
{
    match base64::prelude::BASE64_STANDARD_NO_PAD.decode(data.as_bytes()) {
        Ok(bytes) => String::from_utf8(bytes).ok(),
        Err(_) => None,
    }
}

} // verus!
