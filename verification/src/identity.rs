use vstd::prelude::*;
use vstd::slice::slice_to_vec;

use crate::IDENTITY_LEN;

verus! {

/// A participant identity: the raw bytes of the transport-layer identifier
/// of a peer. The transport supplies and authenticates it; this crate only
/// stores, compares and abbreviates it.
#[derive(Debug)]
pub struct Identity {
    pub bytes: Vec<u8>,
}

impl View for Identity {
    type V = Seq<u8>;

    open spec fn view(&self) -> Seq<u8> {
        self.bytes@
    }
}

impl Identity {
    /// A well-formed identity holds exactly `IDENTITY_LEN` bytes.
    pub open spec fn wf(&self) -> bool {
        self@.len() == IDENTITY_LEN
    }

    /// Wraps raw identity bytes; accepts exactly `IDENTITY_LEN` of them.
    pub fn from_bytes(bytes: Vec<u8>) -> (r: Option<Identity>)
        ensures
            match r {
                Some(id) => id.wf() && id@ == bytes@,
                None => bytes@.len() != IDENTITY_LEN,
            },
    {
        if bytes.len() == IDENTITY_LEN {
            Some(Identity { bytes })
        } else {
            None
        }
    }

    /// Equality on the underlying bytes.
    pub fn same_as(&self, other: &Identity) -> (r: bool)
        ensures
            r == (self@ == other@),
    {
        let r = self.bytes == other.bytes;
        proof {
            if self.bytes@ =~= other.bytes@ {
                assert(self@ == other@);
            }
        }
        r
    }

    /// An owned copy of this identity.
    pub fn duplicate(&self) -> (r: Identity)
        ensures
            r@ == self@,
    {
        Identity { bytes: slice_to_vec(self.bytes.as_slice()) }
    }
}

} // verus!
