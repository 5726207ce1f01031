use vstd::prelude::*;
use vstd::utf8::{decode_utf8, encode_utf8, encode_utf8_decode_utf8, encode_utf8_valid_utf8,
    valid_utf8};

use crate::identity::Identity;
use crate::rng::random_nonce;
use crate::text::bytes_to_string;
use crate::wire::{append_bytes, copy_range};
use crate::{IDENTITY_LEN, NONCE_LEN};

verus! {

/// Wire tag of a discovery probe.
pub const TAG_WHO_IS_THERE: u8 = 1;

/// Wire tag of a presence announcement.
pub const TAG_ABOUT_ME: u8 = 2;

/// Wire tag of a chat message.
pub const TAG_MESSAGE: u8 = 3;

/// Bytes of envelope before the payload: tag, nonce, sender identity.
pub const HEADER_LEN: usize = 49;

/// The tagged payload variants exchanged over the pub/sub channel.
#[derive(Debug)]
pub enum MessageBody {
    /// Discovery probe: asks present participants to announce themselves.
    WhoIsThere { from: Identity },
    /// Presence announcement binding a display name to an identity.
    AboutMe { from: Identity, name: String },
    /// Chat text attributed to an identity.
    Message { from: Identity, text: String },
}

/// Mathematical image of a message body.
#[verifier::ext_equal]
pub enum BodyView {
    WhoIsThere { from: Seq<u8> },
    AboutMe { from: Seq<u8>, name: Seq<char> },
    Message { from: Seq<u8>, text: Seq<char> },
}

impl View for MessageBody {
    type V = BodyView;

    open spec fn view(&self) -> BodyView {
        match self {
            MessageBody::WhoIsThere { from } => BodyView::WhoIsThere { from: from@ },
            MessageBody::AboutMe { from, name } => BodyView::AboutMe {
                from: from@,
                name: name@,
            },
            MessageBody::Message { from, text } => BodyView::Message {
                from: from@,
                text: text@,
            },
        }
    }
}

/// A well-formed body carries a full-length sender identity.
pub open spec fn body_wf(b: BodyView) -> bool {
    match b {
        BodyView::WhoIsThere { from } => from.len() == IDENTITY_LEN,
        BodyView::AboutMe { from, name: _ } => from.len() == IDENTITY_LEN,
        BodyView::Message { from, text: _ } => from.len() == IDENTITY_LEN,
    }
}

/// The tag byte of a body.
pub open spec fn body_tag(b: BodyView) -> u8 {
    match b {
        BodyView::WhoIsThere { .. } => TAG_WHO_IS_THERE,
        BodyView::AboutMe { .. } => TAG_ABOUT_ME,
        BodyView::Message { .. } => TAG_MESSAGE,
    }
}

/// The sender identity bytes of a body.
pub open spec fn body_from(b: BodyView) -> Seq<u8> {
    match b {
        BodyView::WhoIsThere { from } => from,
        BodyView::AboutMe { from, name: _ } => from,
        BodyView::Message { from, text: _ } => from,
    }
}

/// The payload bytes of a body: nothing for a probe, UTF-8 text otherwise.
pub open spec fn body_payload(b: BodyView) -> Seq<u8> {
    match b {
        BodyView::WhoIsThere { .. } => Seq::<u8>::empty(),
        BodyView::AboutMe { from: _, name } => encode_utf8(name),
        BodyView::Message { from: _, text } => encode_utf8(text),
    }
}

/// The transmitted byte sequence of a body under a given nonce:
/// tag, then nonce, then sender identity, then payload.
pub open spec fn message_bytes(b: BodyView, nonce: Seq<u8>) -> Seq<u8> {
    seq![body_tag(b)] + nonce + body_from(b) + body_payload(b)
}

/// A protocol message: a body plus the random nonce that makes two
/// semantically identical messages serialize differently.
#[derive(Debug)]
pub struct Message {
    pub body: MessageBody,
    pub nonce: Vec<u8>,
}

/// Mathematical image of a protocol message.
#[verifier::ext_equal]
pub struct MessageView {
    pub body: BodyView,
    pub nonce: Seq<u8>,
}

impl View for Message {
    type V = MessageView;

    open spec fn view(&self) -> MessageView {
        MessageView { body: self.body@, nonce: self.nonce@ }
    }
}

/// The error reported for an inbound byte sequence that is not a valid
/// envelope.
#[derive(Debug, PartialEq, Eq, Structural)]
pub enum ProtocolError {
    Corrupt,
}

/// What a byte sequence decodes to, if anything: the inverse of
/// `message_bytes`, and `None` on every sequence that no well-formed
/// message produces.
pub open spec fn decode_message(bytes: Seq<u8>) -> Option<MessageView> {
    if bytes.len() < HEADER_LEN {
        None
    } else {
        let tag = bytes[0];
        let nonce = bytes.subrange(1, 1 + NONCE_LEN as int);
        let from = bytes.subrange(1 + NONCE_LEN as int, HEADER_LEN as int);
        let payload = bytes.subrange(HEADER_LEN as int, bytes.len() as int);
        if tag == TAG_WHO_IS_THERE {
            if bytes.len() == HEADER_LEN {
                Some(MessageView { body: BodyView::WhoIsThere { from }, nonce })
            } else {
                None
            }
        } else if tag == TAG_ABOUT_ME {
            if valid_utf8(payload) {
                Some(MessageView {
                    body: BodyView::AboutMe { from, name: decode_utf8(payload) },
                    nonce,
                })
            } else {
                None
            }
        } else if tag == TAG_MESSAGE {
            if valid_utf8(payload) {
                Some(MessageView {
                    body: BodyView::Message { from, text: decode_utf8(payload) },
                    nonce,
                })
            } else {
                None
            }
        } else {
            None
        }
    }
}

/// Decoding inverts encoding: every well-formed body, under any
/// full-length nonce, is recovered exactly from its byte sequence.
pub proof fn lemma_message_round_trip(b: BodyView, nonce: Seq<u8>)
    requires
        body_wf(b),
        nonce.len() == NONCE_LEN,
    ensures
        decode_message(message_bytes(b, nonce)) == Some(MessageView { body: b, nonce }),
{
    broadcast use encode_utf8_valid_utf8, encode_utf8_decode_utf8;

    let bytes = message_bytes(b, nonce);
    assert(bytes.len() == HEADER_LEN + body_payload(b).len());
    assert(bytes[0] == body_tag(b));
    assert(bytes.subrange(1, 1 + NONCE_LEN as int) =~= nonce);
    assert(bytes.subrange(1 + NONCE_LEN as int, HEADER_LEN as int) =~= body_from(b));
    assert(bytes.subrange(HEADER_LEN as int, bytes.len() as int) =~= body_payload(b));
    match b {
        BodyView::WhoIsThere { from } => {
            assert(body_payload(b).len() == 0);
            assert(decode_message(bytes) =~= Some(MessageView { body: b, nonce }));
        },
        BodyView::AboutMe { from, name } => {
            assert(decode_utf8(encode_utf8(name)) == name);
            assert(decode_message(bytes) =~= Some(MessageView { body: b, nonce }));
        },
        BodyView::Message { from, text } => {
            assert(decode_utf8(encode_utf8(text)) == text);
            assert(decode_message(bytes) =~= Some(MessageView { body: b, nonce }));
        },
    }
}

/// Decoding is sound: whatever decodes was the exact byte sequence of the
/// decoded message, so nothing structurally invalid ever comes back and
/// re-encoding a decoded message under its own nonce restores the input.
pub proof fn lemma_decode_message_sound(bytes: Seq<u8>)
    requires
        decode_message(bytes) is Some,
    ensures
        ({
            let m = decode_message(bytes)->Some_0;
            &&& body_wf(m.body)
            &&& m.nonce.len() == NONCE_LEN
            &&& message_bytes(m.body, m.nonce) == bytes
        }),
{
    broadcast use vstd::utf8::decode_utf8_encode_utf8;

    let m = decode_message(bytes)->Some_0;
    let payload = bytes.subrange(HEADER_LEN as int, bytes.len() as int);
    assert(body_payload(m.body) == (if bytes[0] == TAG_WHO_IS_THERE {
        Seq::<u8>::empty()
    } else {
        encode_utf8(decode_utf8(payload))
    }));
    assert(message_bytes(m.body, m.nonce) =~= bytes);
}

/// Distinct nonces give distinct byte sequences, whatever the bodies:
/// this is why re-announcing the same name is never suppressed as a
/// duplicate by the transport.
pub proof fn lemma_distinct_nonces_distinct_bytes(
    b1: BodyView,
    b2: BodyView,
    n1: Seq<u8>,
    n2: Seq<u8>,
)
    requires
        n1.len() == NONCE_LEN,
        n2.len() == NONCE_LEN,
        n1 != n2,
    ensures
        message_bytes(b1, n1) != message_bytes(b2, n2),
{
    if message_bytes(b1, n1) == message_bytes(b2, n2) {
        assert forall|i: int| 0 <= i < NONCE_LEN implies n1[i] == n2[i] by {
            assert(message_bytes(b1, n1)[1 + i] == n1[i]);
            assert(message_bytes(b2, n2)[1 + i] == n2[i]);
        }
        assert(n1 =~= n2);
    }
}

impl Message {
    /// A message is well formed when its body is and its nonce is full
    /// length.
    pub open spec fn wf(&self) -> bool {
        body_wf(self@.body) && self@.nonce.len() == NONCE_LEN
    }

    /// Attaches a freshly drawn random nonce to `body`. Two calls on equal
    /// bodies draw independent nonces, so their encodings almost surely
    /// differ; nothing is proved about the drawn values themselves.
    pub fn new(body: MessageBody) -> (r: Message)
        ensures
            r@.body == body@,
            r@.nonce.len() == NONCE_LEN,
    {
        Message { body, nonce: random_nonce() }
    }

    /// Serializes the envelope. Never fails.
    pub fn to_vec(&self) -> (r: Vec<u8>)
        requires
            self.wf(),
        ensures
            r@ == message_bytes(self@.body, self@.nonce),
    {
        let mut out: Vec<u8> = Vec::new();
        match &self.body {
            MessageBody::WhoIsThere { from } => {
                out.push(TAG_WHO_IS_THERE);
                append_bytes(&mut out, self.nonce.as_slice());
                append_bytes(&mut out, from.bytes.as_slice());
            },
            MessageBody::AboutMe { from, name } => {
                out.push(TAG_ABOUT_ME);
                append_bytes(&mut out, self.nonce.as_slice());
                append_bytes(&mut out, from.bytes.as_slice());
                append_bytes(&mut out, name.as_str().as_bytes());
            },
            MessageBody::Message { from, text } => {
                out.push(TAG_MESSAGE);
                append_bytes(&mut out, self.nonce.as_slice());
                append_bytes(&mut out, from.bytes.as_slice());
                append_bytes(&mut out, text.as_str().as_bytes());
            },
        }
        proof {
            assert(out@ =~= message_bytes(self@.body, self@.nonce));
        }
        out
    }

    /// Parses an inbound byte sequence. Returns `Corrupt`, and never
    /// panics, exactly on input that `decode_message` rejects.
    pub fn from_bytes(bytes: &[u8]) -> (r: Result<Message, ProtocolError>)
        ensures
            match r {
                Ok(m) => decode_message(bytes@) == Some(m@) && m.wf(),
                Err(e) => decode_message(bytes@) is None && e == ProtocolError::Corrupt,
            },
    {
        if bytes.len() < HEADER_LEN {
            return Err(ProtocolError::Corrupt);
        }
        let tag = *vstd::slice::slice_index_get(bytes, 0);
        let nonce = copy_range(bytes, 1, 1 + NONCE_LEN);
        let from = Identity { bytes: copy_range(bytes, 1 + NONCE_LEN, HEADER_LEN) };
        if tag == TAG_WHO_IS_THERE {
            if bytes.len() == HEADER_LEN {
                let m = Message { body: MessageBody::WhoIsThere { from }, nonce };
                proof {
                    assert(decode_message(bytes@) =~= Some(m@));
                }
                Ok(m)
            } else {
                Err(ProtocolError::Corrupt)
            }
        } else if tag == TAG_ABOUT_ME {
            let payload = copy_range(bytes, HEADER_LEN, bytes.len());
            match bytes_to_string(payload) {
                Some(name) => {
                    let m = Message { body: MessageBody::AboutMe { from, name }, nonce };
                    proof {
                        assert(decode_message(bytes@) =~= Some(m@));
                    }
                    Ok(m)
                },
                None => Err(ProtocolError::Corrupt),
            }
        } else if tag == TAG_MESSAGE {
            let payload = copy_range(bytes, HEADER_LEN, bytes.len());
            match bytes_to_string(payload) {
                Some(text) => {
                    let m = Message { body: MessageBody::Message { from, text }, nonce };
                    proof {
                        assert(decode_message(bytes@) =~= Some(m@));
                    }
                    Ok(m)
                },
                None => Err(ProtocolError::Corrupt),
            }
        } else {
            Err(ProtocolError::Corrupt)
        }
    }
}

} // verus!
