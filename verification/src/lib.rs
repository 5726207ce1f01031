//! A topic-scoped peer-to-peer chat core: the rendezvous-ticket codec, the
//! wire protocol for presence and chat messages, the presence directory,
//! the session state machine that the event loop drives, and the projection
//! of session state into renderable text.

use vstd::prelude::*;

pub mod b32;
pub mod display;
pub mod identity;
pub mod presence;
pub mod protocol;
pub mod rng;
pub mod session;
pub mod text;
pub mod ticket;
mod wire;

verus! {

/// Number of bytes in a topic identifier.
pub const TOPIC_LEN: usize = 32;

/// Number of bytes in a participant identity.
pub const IDENTITY_LEN: usize = 32;

/// Number of random bytes attached to every protocol message.
pub const NONCE_LEN: usize = 16;

} // verus!
