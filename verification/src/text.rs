//! Bytes to text.
use vstd::prelude::*;

verus! {

/// The text that `String::from_utf8_lossy` makes of `bytes`: valid UTF-8 decoded,
/// each invalid sequence replaced by U+FFFD.
pub uninterp spec fn utf8_lossy(bytes: Seq<u8>) -> Seq<char>;

/// Calls `String::from_utf8_lossy` and takes its result as an owned `String`.
/// Claimed of std: the text depends on the bytes alone (it is `utf8_lossy` of them),
/// and bytes that are valid UTF-8 come back decoded unchanged.
#[verifier::external_body]
pub(crate) fn lossy_string(bytes: &[u8]) -> (text: String)
    ensures
        text@ == utf8_lossy(bytes@),
        vstd::utf8::valid_utf8(bytes@) ==> text@ == vstd::utf8::decode_utf8(bytes@),
{
    String::from_utf8_lossy(bytes).into_owned()
}

} // verus!
