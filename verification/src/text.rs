//! Turning stored bytes into text.

use vstd::prelude::*;
use vstd::utf8::*;

verus! {

/// The text that lossy decoding gives for bytes that are not valid UTF-8:
/// each invalid sequence is replaced by U+FFFD.
pub uninterp spec fn lossy_text(bytes: Seq<u8>) -> Seq<char>;

/// The text that stored bytes stand for: their UTF-8 decoding where they are
/// valid UTF-8, the lossy decoding otherwise.
pub open spec fn text_of(bytes: Seq<u8>) -> Seq<char> {
    if valid_utf8(bytes) {
        decode_utf8(bytes)
    } else {
        lossy_text(bytes)
    }
}

/// Calls `String::from_utf8_lossy`. Trusted: valid UTF-8 comes back as the
/// string it encodes; for anything else the result is only given a name.
#[verifier::external_body]
pub(crate) fn decode_text(bytes: &[u8]) -> (text: String)
    ensures
        valid_utf8(bytes@) ==> text@ == decode_utf8(bytes@),
        !valid_utf8(bytes@) ==> text@ == lossy_text(bytes@),
{
    String::from_utf8_lossy(bytes).into_owned()
}

} // verus!
