use vstd::prelude::*;

verus! {

/// The unpadded base-32 text of a byte sequence, as
/// `data_encoding::BASE32_NOPAD` produces it: a function of the bytes
/// alone, over the alphabet `A`–`Z`, `2`–`7`.
pub uninterp spec fn b32_of(b: Seq<u8>) -> Seq<char>;

/// The ASCII-lowercased image of a character sequence, as
/// `str::to_ascii_lowercase` computes it.
pub uninterp spec fn lower_of(s: Seq<char>) -> Seq<char>;

/// The ASCII-uppercased image of a character sequence, as
/// `str::to_ascii_uppercase` computes it.
pub uninterp spec fn upper_of(s: Seq<char>) -> Seq<char>;

/// Relies on `data_encoding::BASE32_NOPAD.encode`: deterministic unpadded
/// base 32. Its alphabet holds only upper-case letters and digits, so
/// ASCII-uppercasing the result leaves it unchanged.
#[verifier::external_body]
pub(crate) fn base32_encode(input: &[u8]) -> (r: String)
    ensures
        r@ == b32_of(input@),
        upper_of(r@) == r@,
{
    data_encoding::BASE32_NOPAD.encode(input)
}

/// Relies on `data_encoding::BASE32_NOPAD.decode`: the encoding is
/// canonical, so decoding succeeds exactly on the encodings that
/// `BASE32_NOPAD.encode` produces, and returns the unique preimage.
#[verifier::external_body]
pub(crate) fn base32_decode(s: &str) -> (r: Option<Vec<u8>>)
    ensures
        match r {
            Some(v) => b32_of(v@) == s@ && forall|b: Seq<u8>| b32_of(b) == s@ ==> b == v@,
            None => forall|b: Seq<u8>| b32_of(b) != s@,
        },
{
    match data_encoding::BASE32_NOPAD.decode(s.as_bytes()) {
        Ok(v) => Some(v),
        Err(_) => None,
    }
}

/// Relies on `str::to_ascii_lowercase`: maps `A`–`Z` to `a`–`z` character
/// by character and leaves the rest alone, so ASCII-uppercasing the result
/// gives the same sequence as ASCII-uppercasing the input.
#[verifier::external_body]
pub(crate) fn ascii_lower(s: &str) -> (r: String)
    ensures
        r@ == lower_of(s@),
        upper_of(r@) == upper_of(s@),
{
    s.to_ascii_lowercase()
}

/// Relies on `str::to_ascii_uppercase`: maps `a`–`z` to `A`–`Z` character
/// by character and leaves the rest alone.
#[verifier::external_body]
pub(crate) fn ascii_upper(s: &str) -> (r: String)
    ensures
        r@ == upper_of(s@),
{
    s.to_ascii_uppercase()
}

} // verus!
