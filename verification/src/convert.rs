//! Conversions between bytes, characters and strings that std performs.
use vstd::prelude::*;
use vstd::utf8::*;

verus! {

/// What `String::from_utf8_lossy` makes of a byte sequence.
pub uninterp spec fn utf8_lossy(bytes: Seq<u8>) -> Seq<char>;

/// Collects characters into a `String` (std's `FromIterator<&char>` for `String`):
/// the string holds exactly those characters.
#[verifier::external_body]
pub fn string_of(chars: &[char]) -> (res: String)
    ensures
        res@ == chars@,
{
    chars.iter().collect()
}

/// The message of the error `std::str::from_utf8` gives for a byte sequence (where the
/// first invalid sequence starts and how long it is), or empty text where it succeeds.
pub uninterp spec fn utf8_error_text(bytes: Seq<u8>) -> Seq<char>;

/// The message of `std::str::from_utf8`'s error for the bytes, as its `Display` writes
/// it; empty where the bytes are valid UTF-8.
#[verifier::external_body]
pub fn utf8_error_message(bytes: &[u8]) -> (res: String)
    ensures
        res@ == utf8_error_text(bytes@),
{
    match std::str::from_utf8(bytes) {
        Ok(_) => String::new(),
        Err(e) => e.to_string(),
    }
}

/// Decodes UTF-8 with `std::str::from_utf8`: it succeeds exactly on valid UTF-8 and
/// then gives the decoded characters.
#[verifier::external_body]
pub fn utf8_decode(bytes: &[u8]) -> (res: Option<String>)
    ensures
        res is Some <==> valid_utf8(bytes@),
        res matches Some(s) ==> s@ == decode_utf8(bytes@),
{
    match std::str::from_utf8(bytes) {
        Ok(s) => Some(s.to_string()),
        Err(_) => None,
    }
}

/// Decodes UTF-8 with `String::from_utf8_lossy`, which puts replacement characters for
/// invalid sequences. Only that valid UTF-8 decodes as it does strictly is stated; what
/// the replacement of invalid sequences gives is left to the name `utf8_lossy`.
#[verifier::external_body]
pub fn utf8_decode_lossy(bytes: &[u8]) -> (res: String)
    ensures
        res@ == utf8_lossy(bytes@),
        valid_utf8(bytes@) ==> res@ == decode_utf8(bytes@),
{
    String::from_utf8_lossy(bytes).to_string()
}

} // verus!
