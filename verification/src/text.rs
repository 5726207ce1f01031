use vstd::prelude::*;
use vstd::utf8::{decode_utf8, valid_utf8};

verus! {

/// Relies on `String::from_utf8`: succeeds exactly on valid UTF-8 input and
/// decodes it to the character sequence that vstd's UTF-8 model describes.
#[verifier::external_body]
pub(crate) fn bytes_to_string(bytes: Vec<u8>) -> (r: Option<String>)
    ensures
        match r {
            Some(s) => valid_utf8(bytes@) && s@ == decode_utf8(bytes@),
            None => !valid_utf8(bytes@),
        },
{
    match String::from_utf8(bytes) {
        Ok(s) => Some(s),
        Err(_) => None,
    }
}

/// Relies on `String::push`: appends one character to the end of the string.
#[verifier::external_body]
pub(crate) fn push_char(s: &mut String, c: char)
    ensures
        final(s)@ == old(s)@.push(c),
{
    s.push(c);
}

/// Relies on `String::pop`: removes and returns the last character, or
/// leaves an empty string unchanged.
#[verifier::external_body]
pub(crate) fn pop_char(s: &mut String) -> (r: Option<char>)
    ensures
        old(s)@.len() > 0 ==> r == Some(old(s)@.last()) && final(s)@ == old(s)@.drop_last(),
        old(s)@.len() == 0 ==> r is None && final(s)@ == old(s)@,
{
    s.pop()
}

/// The characters that remain when leading and trailing whitespace is
/// removed, as `str::trim` computes them. The result depends on the
/// characters alone.
pub uninterp spec fn trim_of(s: Seq<char>) -> Seq<char>;

/// Relies on `str::trim`: removes leading and trailing whitespace; an
/// already-trimmed or empty string comes back unchanged, so the empty
/// sequence trims to itself.
#[verifier::external_body]
pub(crate) fn trim_str(s: &String) -> (r: String)
    ensures
        r@ == trim_of(s@),
        s@.len() == 0 ==> r@.len() == 0,
        trim_of(r@) == r@,
{
    s.trim().to_string()
}

} // verus!
