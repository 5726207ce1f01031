use meshspace::identity::Identity;
use meshspace::protocol::{Message, MessageBody, ProtocolError};
use meshspace::ticket::{DecodeError, PeerAddr, Ticket};

fn id_of(byte: u8) -> Identity {
    Identity::from_bytes(vec![byte; 32]).unwrap()
}

#[test]
fn identity_rejects_wrong_length() {
    assert!(Identity::from_bytes(vec![7u8; 31]).is_none());
    assert!(Identity::from_bytes(vec![7u8; 33]).is_none());
    assert!(Identity::from_bytes(vec![7u8; 32]).is_some());
}

#[test]
fn message_round_trip_who_is_there() {
    let m = Message::new(MessageBody::WhoIsThere { from: id_of(1) });
    let bytes = m.to_vec();
    let back = Message::from_bytes(&bytes).unwrap();
    match back.body {
        MessageBody::WhoIsThere { from } => assert!(from.same_as(&id_of(1))),
        _ => panic!("wrong variant"),
    }
    assert_eq!(back.nonce, m.nonce);
}

#[test]
fn message_round_trip_about_me() {
    let m = Message::new(MessageBody::AboutMe {
        from: id_of(2),
        name: String::from("héllo → wörld"),
    });
    let bytes = m.to_vec();
    let back = Message::from_bytes(&bytes).unwrap();
    match back.body {
        MessageBody::AboutMe { from, name } => {
            assert!(from.same_as(&id_of(2)));
            assert_eq!(name, "héllo → wörld");
        },
        _ => panic!("wrong variant"),
    }
}

#[test]
fn message_round_trip_chat_text() {
    let m = Message::new(MessageBody::Message {
        from: id_of(3),
        text: String::from("hello"),
    });
    let bytes = m.to_vec();
    let back = Message::from_bytes(&bytes).unwrap();
    match back.body {
        MessageBody::Message { from, text } => {
            assert!(from.same_as(&id_of(3)));
            assert_eq!(text, "hello");
        },
        _ => panic!("wrong variant"),
    }
}

#[test]
fn same_body_encodes_differently_twice() {
    let b1 = Message::new(MessageBody::AboutMe {
        from: id_of(4),
        name: String::from("same"),
    })
    .to_vec();
    let b2 = Message::new(MessageBody::AboutMe {
        from: id_of(4),
        name: String::from("same"),
    })
    .to_vec();
    assert_ne!(b1, b2);
}

#[test]
fn message_decode_rejects_garbage() {
    assert_eq!(Message::from_bytes(&[]).unwrap_err(), ProtocolError::Corrupt);
    assert_eq!(Message::from_bytes(&[1u8; 10]).unwrap_err(), ProtocolError::Corrupt);
    // Unknown tag.
    let mut bytes = Message::new(MessageBody::WhoIsThere { from: id_of(5) }).to_vec();
    bytes[0] = 9;
    assert_eq!(Message::from_bytes(&bytes).unwrap_err(), ProtocolError::Corrupt);
    // A probe with trailing bytes is not a probe.
    let mut longer = Message::new(MessageBody::WhoIsThere { from: id_of(5) }).to_vec();
    longer.push(0);
    assert_eq!(Message::from_bytes(&longer).unwrap_err(), ProtocolError::Corrupt);
    // A chat message whose payload is not UTF-8.
    let mut bad = Message::new(MessageBody::Message {
        from: id_of(5),
        text: String::from("ok"),
    })
    .to_vec();
    let n = bad.len();
    bad[n - 1] = 0xff;
    bad[n - 2] = 0xff;
    assert_eq!(Message::from_bytes(&bad).unwrap_err(), ProtocolError::Corrupt);
}

#[test]
fn message_decode_truncated() {
    let bytes = Message::new(MessageBody::AboutMe {
        from: id_of(6),
        name: String::from("alice"),
    })
    .to_vec();
    for cut in 0..49 {
        assert!(Message::from_bytes(&bytes[..cut]).is_err());
    }
}

fn sample_ticket() -> Ticket {
    Ticket {
        topic: (0u8..32).collect(),
        nodes: vec![
            PeerAddr {
                id: id_of(10),
                relay: Some(String::from("https://relay.example/")),
                direct: vec![
                    String::from("192.0.2.7:4433"),
                    String::from("[2001:db8::1]:4433"),
                ],
            },
            PeerAddr { id: id_of(11), relay: None, direct: vec![] },
        ],
    }
}

#[test]
fn ticket_token_round_trip() {
    let t = sample_ticket();
    let token = t.encode();
    let back = Ticket::decode(&token).unwrap();
    assert_eq!(back.topic, t.topic);
    assert_eq!(back.nodes.len(), 2);
    assert!(back.nodes[0].id.same_as(&t.nodes[0].id));
    assert_eq!(back.nodes[0].relay.as_deref(), Some("https://relay.example/"));
    assert_eq!(back.nodes[0].direct, t.nodes[0].direct);
    assert!(back.nodes[1].id.same_as(&t.nodes[1].id));
    assert_eq!(back.nodes[1].relay, None);
    assert!(back.nodes[1].direct.is_empty());
}

#[test]
fn ticket_token_round_trip_no_peers() {
    let t = Ticket { topic: vec![0xabu8; 32], nodes: vec![] };
    let back = Ticket::decode(&t.encode()).unwrap();
    assert_eq!(back.topic, t.topic);
    assert!(back.nodes.is_empty());
}

#[test]
fn ticket_token_is_lower_case_and_deterministic() {
    let t = sample_ticket();
    let token = t.encode();
    assert!(!token.is_empty());
    assert!(token.chars().all(|c| !c.is_ascii_uppercase()));
    assert_eq!(token, sample_ticket().encode());
}

#[test]
fn ticket_decode_is_case_insensitive() {
    let t = sample_ticket();
    let upper = t.encode().to_ascii_uppercase();
    let back = Ticket::decode(&upper).unwrap();
    assert_eq!(back.topic, t.topic);
}

#[test]
fn ticket_decode_rejects_bad_base32() {
    assert_eq!(Ticket::decode("not a ticket!!!").unwrap_err(), DecodeError::Encoding);
    assert_eq!(Ticket::decode("0189").unwrap_err(), DecodeError::Encoding);
}

#[test]
fn ticket_decode_rejects_malformed_bytes() {
    // Well-formed base 32 of bytes that are no ticket serialization.
    let junk = data_encoding::BASE32_NOPAD.encode(b"junk bytes").to_ascii_lowercase();
    assert_eq!(Ticket::decode(&junk).unwrap_err(), DecodeError::Malformed);
    let empty = Ticket::decode("");
    assert_eq!(empty.unwrap_err(), DecodeError::Malformed);
}

#[test]
fn ticket_decode_rejects_trailing_bytes() {
    let t = Ticket { topic: vec![1u8; 32], nodes: vec![] };
    let mut bytes = t.to_bytes();
    bytes.push(0);
    let token = data_encoding::BASE32_NOPAD.encode(&bytes).to_ascii_lowercase();
    assert_eq!(Ticket::decode(&token).unwrap_err(), DecodeError::Malformed);
}

#[test]
fn ticket_bytes_round_trip() {
    let t = sample_ticket();
    let bytes = t.to_bytes();
    let back = Ticket::from_bytes(&bytes).unwrap();
    assert_eq!(back.topic, t.topic);
    assert_eq!(back.nodes.len(), t.nodes.len());
    for cut in 0..bytes.len() {
        assert!(Ticket::from_bytes(&bytes[..cut]).is_none());
    }
}
