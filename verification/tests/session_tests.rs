use meshspace::display::render;
use meshspace::identity::Identity;
use meshspace::presence::{fallback_of, Presence};
use meshspace::protocol::{Message, MessageBody};
use meshspace::rng::random_topic;
use meshspace::session::{KeyInput, SessionEvent, SessionState};
use meshspace::ticket::Ticket;

fn id_of(byte: u8) -> Identity {
    Identity::from_bytes(vec![byte; 32]).unwrap()
}

fn type_line(s: &mut SessionState, text: &str) {
    for c in text.chars() {
        s.handle_event(SessionEvent::Key(KeyInput::Char(c)));
    }
}

#[test]
fn presence_join_notice_exactly_once() {
    let mut p = Presence::new();
    let alice = id_of(1);
    assert!(!p.contains(&alice));
    let joined_first = p.observe_about_me(&alice, String::from("alice"));
    let joined_second = p.observe_about_me(&alice, String::from("alice"));
    assert!(joined_first);
    assert!(!joined_second);
    assert!(p.contains(&alice));
    assert_eq!(p.resolve_label(&alice), "alice");
}

#[test]
fn presence_last_writer_wins() {
    let mut p = Presence::new();
    let a = id_of(1);
    p.observe_about_me(&a, String::from("first"));
    p.observe_about_me(&a, String::from("second"));
    assert_eq!(p.resolve_label(&a), "second");
}

#[test]
fn unknown_sender_gets_hex_fallback() {
    let p = Presence::new();
    let id = Identity::from_bytes(
        vec![0xab, 0xcd, 0x01, 0x2f, 0x90, 9, 9, 9, 9, 9, 9, 9, 9, 9, 9, 9, 9, 9, 9, 9, 9, 9, 9,
            9, 9, 9, 9, 9, 9, 9, 9, 9],
    )
    .unwrap();
    let label = p.resolve_label(&id);
    assert_eq!(label, "abcd012f90");
    assert!(!label.is_empty());
    assert_eq!(fallback_of(&id), "abcd012f90");
    // Deterministic: asking twice gives the same label.
    assert_eq!(p.resolve_label(&id), label);
}

#[test]
fn start_registers_own_name_and_probes() {
    let (s, probe) = SessionState::start(id_of(1), Some(String::from("alice")));
    assert!(s.presence.contains(&id_of(1)));
    assert_eq!(s.presence.resolve_label(&id_of(1)), "alice");
    assert!(s.log.is_empty());
    let m = Message::from_bytes(&probe).unwrap();
    match m.body {
        MessageBody::WhoIsThere { from } => assert!(from.same_as(&id_of(1))),
        _ => panic!("startup probe must be a discovery probe"),
    }
}

#[test]
fn start_without_name_registers_nothing() {
    let (s, _probe) = SessionState::start(id_of(1), None);
    assert!(!s.presence.contains(&id_of(1)));
}

#[test]
fn discovery_handshake_one_reply() {
    let a_id = id_of(1);
    let b_id = id_of(2);
    let (mut a, a_probe) = SessionState::start(a_id.duplicate(), None);
    let (mut b, _) = SessionState::start(b_id.duplicate(), Some(String::from("bob")));
    // B receives A's probe and answers with exactly one announcement.
    let out = b.handle_event(SessionEvent::Inbound(a_probe));
    assert!(!out.quit);
    let reply = out.broadcast.expect("a named participant answers a probe");
    let m = Message::from_bytes(&reply).unwrap();
    match &m.body {
        MessageBody::AboutMe { from, name } => {
            assert!(from.same_as(&b_id));
            assert_eq!(name, "bob");
        },
        _ => panic!("the reply must be a presence announcement"),
    }
    // A observes the announcement and resolves B's identity to B's name.
    let out2 = a.handle_event(SessionEvent::Inbound(reply));
    assert!(out2.broadcast.is_none());
    assert_eq!(a.presence.resolve_label(&b_id), "bob");
}

#[test]
fn own_probe_is_ignored() {
    let a_id = id_of(1);
    let (mut a, a_probe) = SessionState::start(a_id, Some(String::from("alice")));
    let out = a.handle_event(SessionEvent::Inbound(a_probe));
    assert!(out.broadcast.is_none());
}

#[test]
fn probe_without_name_gets_no_reply() {
    let (mut b, _) = SessionState::start(id_of(2), None);
    let (_, a_probe) = SessionState::start(id_of(1), None);
    let out = b.handle_event(SessionEvent::Inbound(a_probe));
    assert!(out.broadcast.is_none());
}

#[test]
fn heartbeat_reannounces_name() {
    let (mut s, _) = SessionState::start(id_of(1), Some(String::from("alice")));
    let out = s.handle_event(SessionEvent::Heartbeat);
    assert!(!out.quit);
    let bytes = out.broadcast.expect("heartbeat with a name announces it");
    let m = Message::from_bytes(&bytes).unwrap();
    match &m.body {
        MessageBody::AboutMe { from, name } => {
            assert!(from.same_as(&id_of(1)));
            assert_eq!(name, "alice");
        },
        _ => panic!("heartbeat must announce presence"),
    }
    // Two heartbeats give two distinct byte sequences (fresh nonces).
    let second = s.handle_event(SessionEvent::Heartbeat).broadcast.unwrap();
    let first = m.to_vec();
    assert_ne!(first, second);
}

#[test]
fn heartbeat_without_name_is_silent() {
    let (mut s, _) = SessionState::start(id_of(1), None);
    let out = s.handle_event(SessionEvent::Heartbeat);
    assert!(out.broadcast.is_none());
    assert!(!out.quit);
}

#[test]
fn idle_changes_nothing() {
    let (mut s, _) = SessionState::start(id_of(1), Some(String::from("alice")));
    type_line(&mut s, "draft");
    let out = s.handle_event(SessionEvent::Idle);
    assert!(out.broadcast.is_none());
    assert!(!out.quit);
    assert_eq!(s.input, "draft");
    assert!(s.log.is_empty());
}

#[test]
fn corrupt_inbound_is_discarded_and_loop_continues() {
    let (mut s, _) = SessionState::start(id_of(1), Some(String::from("alice")));
    let out = s.handle_event(SessionEvent::Inbound(vec![0xff, 0x00, 0x07]));
    assert!(out.broadcast.is_none());
    assert!(!out.quit);
    assert!(s.log.is_empty());
    // The loop keeps working afterwards.
    let out2 = s.handle_event(SessionEvent::Heartbeat);
    assert!(out2.broadcast.is_some());
}

#[test]
fn submit_broadcasts_and_echoes_locally() {
    let (mut s, _) = SessionState::start(id_of(1), Some(String::from("alice")));
    type_line(&mut s, "  hello there  ");
    let out = s.handle_event(SessionEvent::Key(KeyInput::Submit));
    assert!(!out.quit);
    let bytes = out.broadcast.expect("non-empty input is sent");
    let m = Message::from_bytes(&bytes).unwrap();
    match m.body {
        MessageBody::Message { from, text } => {
            assert!(from.same_as(&id_of(1)));
            assert_eq!(text, "hello there");
        },
        _ => panic!("submit must send chat text"),
    }
    assert_eq!(s.log.len(), 1);
    assert_eq!(s.log[0].label, "alice");
    assert_eq!(s.log[0].text, "hello there");
    assert_eq!(s.input, "");
}

#[test]
fn submit_unnamed_uses_you_label() {
    let (mut s, _) = SessionState::start(id_of(1), None);
    type_line(&mut s, "hi");
    s.handle_event(SessionEvent::Key(KeyInput::Submit));
    assert_eq!(s.log[0].label, "You");
}

#[test]
fn submit_blank_input_sends_nothing() {
    let (mut s, _) = SessionState::start(id_of(1), Some(String::from("alice")));
    type_line(&mut s, "   ");
    let out = s.handle_event(SessionEvent::Key(KeyInput::Submit));
    assert!(out.broadcast.is_none());
    assert!(s.log.is_empty());
}

#[test]
fn backspace_edits_input() {
    let (mut s, _) = SessionState::start(id_of(1), None);
    type_line(&mut s, "abc");
    s.handle_event(SessionEvent::Key(KeyInput::Backspace));
    assert_eq!(s.input, "ab");
    s.handle_event(SessionEvent::Key(KeyInput::Backspace));
    s.handle_event(SessionEvent::Key(KeyInput::Backspace));
    s.handle_event(SessionEvent::Key(KeyInput::Backspace));
    assert_eq!(s.input, "");
}

#[test]
fn scroll_clamps_at_zero_and_pages() {
    let (mut s, _) = SessionState::start(id_of(1), None);
    s.handle_event(SessionEvent::Key(KeyInput::ScrollUp));
    assert_eq!(s.scroll, 0);
    s.handle_event(SessionEvent::Key(KeyInput::ScrollDown));
    s.handle_event(SessionEvent::Key(KeyInput::ScrollDown));
    assert_eq!(s.scroll, 2);
    s.handle_event(SessionEvent::Key(KeyInput::PageDown));
    assert_eq!(s.scroll, 12);
    s.handle_event(SessionEvent::Key(KeyInput::PageUp));
    assert_eq!(s.scroll, 2);
    s.handle_event(SessionEvent::Key(KeyInput::PageUp));
    assert_eq!(s.scroll, 0);
}

#[test]
fn quit_ends_the_loop() {
    let (mut s, _) = SessionState::start(id_of(1), None);
    let out = s.handle_event(SessionEvent::Key(KeyInput::Quit));
    assert!(out.quit);
    assert!(out.broadcast.is_none());
}

#[test]
fn received_message_uses_presence_label() {
    let (mut s, _) = SessionState::start(id_of(1), Some(String::from("alice")));
    let bob = id_of(2);
    let hello = Message::new(MessageBody::Message {
        from: bob.duplicate(),
        text: String::from("hi alice"),
    })
    .to_vec();
    // Unknown sender: hex fallback label.
    s.handle_event(SessionEvent::Inbound(hello));
    assert_eq!(s.log.len(), 1);
    assert_eq!(s.log[0].label, "0202020202");
    // After an announcement the name is used, and a joined notice is logged.
    let about = Message::new(MessageBody::AboutMe {
        from: bob.duplicate(),
        name: String::from("bob"),
    })
    .to_vec();
    s.handle_event(SessionEvent::Inbound(about));
    assert_eq!(s.log.len(), 2);
    assert_eq!(s.log[1].label, "System");
    assert_eq!(s.log[1].text, "bob joined");
    let hello2 = Message::new(MessageBody::Message {
        from: bob.duplicate(),
        text: String::from("again"),
    })
    .to_vec();
    s.handle_event(SessionEvent::Inbound(hello2));
    assert_eq!(s.log[2].label, "bob");
    assert_eq!(s.log[2].text, "again");
}

#[test]
fn about_me_twice_logs_one_join() {
    let (mut s, _) = SessionState::start(id_of(1), None);
    let bob = id_of(2);
    for _ in 0..2 {
        let about = Message::new(MessageBody::AboutMe {
            from: bob.duplicate(),
            name: String::from("bob"),
        })
        .to_vec();
        s.handle_event(SessionEvent::Inbound(about));
    }
    assert_eq!(s.log.len(), 1);
    assert_eq!(s.log[0].text, "bob joined");
}

#[test]
fn render_projects_log_input_and_scroll() {
    let (mut s, _) = SessionState::start(id_of(1), Some(String::from("alice")));
    type_line(&mut s, "one");
    s.handle_event(SessionEvent::Key(KeyInput::Submit));
    type_line(&mut s, "two");
    s.handle_event(SessionEvent::Key(KeyInput::Submit));
    type_line(&mut s, "dra");
    s.handle_event(SessionEvent::Key(KeyInput::ScrollDown));
    let screen = render(&s);
    assert_eq!(screen.transcript, "alice: one\nalice: two");
    assert_eq!(screen.input_line, "dra");
    assert_eq!(screen.scroll, 1);
    assert_eq!(screen.cursor_col, 4);
}

#[test]
fn render_empty_state() {
    let (s, _) = SessionState::start(id_of(1), None);
    let screen = render(&s);
    assert_eq!(screen.transcript, "");
    assert_eq!(screen.input_line, "");
    assert_eq!(screen.scroll, 0);
    assert_eq!(screen.cursor_col, 1);
}

#[test]
fn open_and_join_scenario() {
    // Open a room: a fresh topic, a ticket, a token another participant can use.
    let topic = random_topic();
    assert_eq!(topic.len(), 32);
    let ticket = Ticket { topic: topic.clone(), nodes: vec![] };
    let token = ticket.encode();
    let joined = Ticket::decode(&token).expect("a shared token always parses");
    assert_eq!(joined.topic, topic);

    // Both participants come up; the second joins via the decoded topic.
    let a_id = id_of(1);
    let b_id = id_of(2);
    let (mut a, a_probe) = SessionState::start(a_id.duplicate(), Some(String::from("alice")));
    let (mut b, b_probe) = SessionState::start(b_id.duplicate(), Some(String::from("bob")));

    // Discovery cycle within one heartbeat period: the probes cross, the
    // replies fill both directories.
    let reply_to_a = b.handle_event(SessionEvent::Inbound(a_probe)).broadcast.unwrap();
    let reply_to_b = a.handle_event(SessionEvent::Inbound(b_probe)).broadcast.unwrap();
    a.handle_event(SessionEvent::Inbound(reply_to_a));
    b.handle_event(SessionEvent::Inbound(reply_to_b));
    assert_eq!(a.presence.resolve_label(&b_id), "bob");
    assert_eq!(a.presence.resolve_label(&a_id), "alice");
    assert_eq!(b.presence.resolve_label(&a_id), "alice");
    assert_eq!(b.presence.resolve_label(&b_id), "bob");

    // A says hello; B's log gains exactly one entry under A's label.
    type_line(&mut a, "hello");
    let wire = a.handle_event(SessionEvent::Key(KeyInput::Submit)).broadcast.unwrap();
    let before = b.log.len();
    b.handle_event(SessionEvent::Inbound(wire));
    assert_eq!(b.log.len(), before + 1);
    assert_eq!(b.log[b.log.len() - 1].label, "alice");
    assert_eq!(b.log[b.log.len() - 1].text, "hello");
}
