//! Text that is shown to people, built from byte strings and fixed words.

use vstd::prelude::*;
use vstd::utf8::{decode_utf8, valid_utf8};

verus! {

/// The text that a byte string is shown as when it may not be UTF-8.
pub uninterp spec fn lossy_text(bytes: Seq<u8>) -> Seq<char>;

/// Wraps `String::from_utf8_lossy`. Its result depends on the bytes alone, and
/// bytes that are UTF-8 are shown as the characters they encode; which
/// characters replace invalid bytes is left to the name [`lossy_text`].
#[verifier::external_body]
fn lossy(bytes: &[u8]) -> (text: String)
    ensures
        text@ == lossy_text(bytes@),
        valid_utf8(bytes@) ==> text@ == decode_utf8(bytes@),
{
    String::from_utf8_lossy(bytes).into_owned()
}

/// A byte string as it is shown: the characters that it encodes, or what stands
/// in for them where it is not UTF-8.
pub open spec fn shown(bytes: Seq<u8>) -> Seq<char> {
    if valid_utf8(bytes) {
        decode_utf8(bytes)
    } else {
        lossy_text(bytes)
    }
}

/// A text that may be missing, as a value.
pub open spec fn written(text: Option<String>) -> Option<Seq<char>> {
    match text {
        Some(text) => Some(text@),
        None => None,
    }
}

/// A byte string as it is shown.
pub fn show(bytes: &[u8]) -> (text: String)
    ensures
        text@ == shown(bytes@),
{
    lossy(bytes)
}

/// Wraps `std::str::from_utf8`, which succeeds exactly on UTF-8.
#[verifier::external_body]
pub(crate) fn is_utf8(bytes: &[u8]) -> (valid: bool)
    ensures
        valid == valid_utf8(bytes@),
{
    std::str::from_utf8(bytes).is_ok()
}

/// `before`, `middle` and `after` in a row.
pub(crate) fn concat3(before: &str, middle: &str, after: &str) -> (text: String)
    ensures
        text@ == before@ + middle@ + after@,
{
    let mut text = String::new();
    text.append(before);
    text.append(middle);
    text.append(after);
    assert(text@ =~= before@ + middle@ + after@);
    text
}

/// `before` and `after` in a row.
pub(crate) fn concat2(before: &str, after: &str) -> (text: String)
    ensures
        text@ == before@ + after@,
{
    let mut text = String::new();
    text.append(before);
    text.append(after);
    assert(text@ =~= before@ + after@);
    text
}

} // verus!
