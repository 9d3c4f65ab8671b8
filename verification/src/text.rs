//! From the bytes of a header line to the identifier of a record.
use vstd::prelude::*;
use vstd::utf8::*;

verus! {

/// The text that `str::trim` returns for `text`: `text` without its leading
/// and trailing white space.
pub uninterp spec fn trimmed(text: Seq<char>) -> Seq<char>;

/// `str::trim` is a function of the characters of its argument alone.
pub assume_specification[ str::trim ](text: &str) -> (r: &str)
    ensures
        r@ == trimmed(text@),
;

/// `std::str::from_utf8` accepts exactly the byte strings that are valid
/// UTF-8, and the string it returns holds the characters they encode.
#[verifier::external_body]
fn from_utf8(bytes: &[u8]) -> (r: Option<&str>)
    ensures
        r is Some <==> valid_utf8(bytes@),
        r matches Some(text) ==> text@ == decode_utf8(bytes@),
{
    match std::str::from_utf8(bytes) {
        Ok(text) => Some(text),
        Err(_) => None,
    }
}

/// The identifier that the content of a header line stands for: its text
/// without the white space around it. Content that is not valid UTF-8
/// stands for no identifier.
pub open spec fn spec_header_id(content: Seq<u8>) -> Option<Seq<char>> {
    if valid_utf8(content) {
        Some(trimmed(decode_utf8(content)))
    } else {
        None
    }
}

/// Reads the identifier out of the content of a header line, marker and
/// line terminator already taken off.
pub fn header_id(content: &[u8]) -> (id: Option<String>)
    ensures
        match spec_header_id(content@) {
            Some(text) => id matches Some(s) && s@ == text,
            None => id is None,
        },
{
    match from_utf8(content) {
        Some(text) => Some(text.trim().to_owned()),
        None => None,
    }
}

} // verus!
