use vstd::prelude::*;

use crate::{NONCE_LEN, TOPIC_LEN};

verus! {

/// Relies on `rand::random`: draws 16 bytes from the thread-local generator.
/// Nothing is assumed of the values themselves, only of how many there are.
#[verifier::external_body]
pub(crate) fn random_nonce() -> (r: Vec<u8>)
    ensures
        r@.len() == NONCE_LEN,
{
    rand::random::<[u8; 16]>().to_vec()
}

/// Relies on `rand::random`: draws 32 bytes from the thread-local generator.
/// Nothing is assumed of the values themselves, only of how many there are.
#[verifier::external_body]
fn random_bytes32() -> (r: Vec<u8>)
    ensures
        r@.len() == 32,
{
    rand::random::<[u8; 32]>().to_vec()
}

/// A freshly drawn topic identifier for a newly opened room.
pub fn random_topic() -> (r: Vec<u8>)
    ensures
        r@.len() == TOPIC_LEN,
{
    random_bytes32()
}

} // verus!
