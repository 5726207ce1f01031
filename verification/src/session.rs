use vstd::prelude::*;

use crate::identity::Identity;
use crate::presence::{resolve_label_spec, Presence};
use crate::protocol::{decode_message, message_bytes, BodyView, Message, MessageBody};
use crate::text::{pop_char, push_char, trim_of, trim_str};
use crate::NONCE_LEN;

verus! {

/// How far one page-scroll step moves.
pub const PAGE_SCROLL: u16 = 10;

/// One discrete keyboard action, as the input-capture thread hands it to
/// the session loop.
pub enum KeyInput {
    /// Leave the session.
    Quit,
    /// Send the input line.
    Submit,
    /// Delete the last character of the input line.
    Backspace,
    /// Append a printable character to the input line.
    Char(char),
    ScrollUp,
    ScrollDown,
    PageUp,
    PageDown,
    /// Any key the session does not react to.
    Other,
}

/// One event offered to the session loop: exactly one of the four sources
/// produced a value.
pub enum SessionEvent {
    Key(KeyInput),
    /// Raw bytes received from the gossip channel.
    Inbound(Vec<u8>),
    /// The periodic re-announce timer fired.
    Heartbeat,
    /// The short idle timer fired; exists only to bound blocking.
    Idle,
}

/// Mathematical image of a session event.
pub enum EventView {
    Key(KeyInput),
    Inbound(Seq<u8>),
    Heartbeat,
    Idle,
}

impl View for SessionEvent {
    type V = EventView;

    open spec fn view(&self) -> EventView {
        match self {
            SessionEvent::Key(k) => EventView::Key(*k),
            SessionEvent::Inbound(b) => EventView::Inbound(b@),
            SessionEvent::Heartbeat => EventView::Heartbeat,
            SessionEvent::Idle => EventView::Idle,
        }
    }
}

/// One line of the message log: who it is shown as, and what was said.
pub struct LogEntry {
    pub label: String,
    pub text: String,
}

/// Mathematical image of a log line.
#[verifier::ext_equal]
pub struct LogLine {
    pub label: Seq<char>,
    pub text: Seq<char>,
}

impl View for LogEntry {
    type V = LogLine;

    open spec fn view(&self) -> LogLine {
        LogLine { label: self.label@, text: self.text@ }
    }
}

/// The sole mutable state of the session, owned by the event loop: the
/// append-only message log, the input line, the scroll offset and the
/// presence directory, plus the immutable self identity and display name.
pub struct SessionState {
    pub self_id: Identity,
    pub display_name: Option<String>,
    pub log: Vec<LogEntry>,
    pub input: String,
    pub scroll: u16,
    pub presence: Presence,
}

/// Mathematical image of the session state.
#[verifier::ext_equal]
pub struct StateView {
    pub self_id: Seq<u8>,
    pub display_name: Option<Seq<char>>,
    pub log: Seq<LogLine>,
    pub input: Seq<char>,
    pub scroll: u16,
    pub presence: Map<Seq<u8>, Seq<char>>,
}

impl View for SessionState {
    type V = StateView;

    open spec fn view(&self) -> StateView {
        StateView {
            self_id: self.self_id@,
            display_name: match self.display_name {
                Option::Some(n) => Option::Some(n@),
                Option::None => Option::None,
            },
            log: Seq::new(self.log@.len(), |i: int| self.log@[i]@),
            input: self.input@,
            scroll: self.scroll,
            presence: self.presence@,
        }
    }
}

/// The outcome of one state transition: at most one message to broadcast,
/// and whether the loop terminates.
pub struct StepOutput {
    pub broadcast: Option<Vec<u8>>,
    pub quit: bool,
}

/// Mathematical image of one transition: the next state, the body to
/// broadcast if any, and the quit flag.
#[verifier::ext_equal]
pub struct StepView {
    pub state: StateView,
    pub broadcast: Option<BodyView>,
    pub quit: bool,
}

/// The label under which the participant's own messages appear.
pub open spec fn own_label(s: StateView) -> Seq<char> {
    match s.display_name {
        Option::Some(n) => n,
        Option::None => "You"@,
    }
}

/// A transition that changes nothing, sends nothing and keeps running.
pub open spec fn no_change(s: StateView) -> StepView {
    StepView { state: s, broadcast: Option::None, quit: false }
}

/// The transition for one keyboard action.
pub open spec fn step_key(s: StateView, k: KeyInput) -> StepView {
    match k {
        KeyInput::Quit => StepView { state: s, broadcast: Option::None, quit: true },
        KeyInput::Submit => {
            let t = trim_of(s.input);
            if t.len() == 0 {
                no_change(s)
            } else {
                StepView {
                    state: StateView {
                        log: s.log.push(LogLine { label: own_label(s), text: t }),
                        input: Seq::<char>::empty(),
                        ..s
                    },
                    broadcast: Option::Some(BodyView::Message { from: s.self_id, text: t }),
                    quit: false,
                }
            }
        },
        KeyInput::Backspace => no_change(
            StateView {
                input: if s.input.len() > 0 {
                    s.input.drop_last()
                } else {
                    s.input
                },
                ..s
            },
        ),
        KeyInput::Char(c) => no_change(StateView { input: s.input.push(c), ..s }),
        KeyInput::ScrollUp => no_change(
            StateView {
                scroll: if s.scroll >= 1 {
                    (s.scroll - 1) as u16
                } else {
                    0
                },
                ..s
            },
        ),
        KeyInput::ScrollDown => no_change(
            StateView {
                scroll: if s.scroll <= u16::MAX - 1 {
                    (s.scroll + 1) as u16
                } else {
                    u16::MAX
                },
                ..s
            },
        ),
        KeyInput::PageUp => no_change(
            StateView {
                scroll: if s.scroll >= PAGE_SCROLL {
                    (s.scroll - PAGE_SCROLL) as u16
                } else {
                    0
                },
                ..s
            },
        ),
        KeyInput::PageDown => no_change(
            StateView {
                scroll: if s.scroll <= u16::MAX - PAGE_SCROLL {
                    (s.scroll + PAGE_SCROLL) as u16
                } else {
                    u16::MAX
                },
                ..s
            },
        ),
        KeyInput::Other => no_change(s),
    }
}

/// The state after observing a presence announcement: the name is always
/// overwritten with the latest arrival, and a "joined" notice is logged
/// exactly when the identity was previously unknown.
pub open spec fn apply_about(s: StateView, from: Seq<u8>, name: Seq<char>) -> StateView {
    StateView {
        log: if !s.presence.contains_key(from) {
            s.log.push(LogLine { label: "System"@, text: name + " joined"@ })
        } else {
            s.log
        },
        presence: s.presence.insert(from, name),
        ..s
    }
}

/// The transition for one successfully decoded inbound body.
pub open spec fn step_body(s: StateView, b: BodyView) -> StepView {
    match b {
        BodyView::WhoIsThere { from } => StepView {
            state: s,
            broadcast: if from != s.self_id && s.display_name is Some {
                Option::Some(
                    BodyView::AboutMe { from: s.self_id, name: s.display_name->Some_0 },
                )
            } else {
                Option::None
            },
            quit: false,
        },
        BodyView::AboutMe { from, name } => StepView {
            state: apply_about(s, from, name),
            broadcast: Option::None,
            quit: false,
        },
        BodyView::Message { from, text } => StepView {
            state: StateView {
                log: s.log.push(
                    LogLine { label: resolve_label_spec(s.presence, from), text },
                ),
                ..s
            },
            broadcast: Option::None,
            quit: false,
        },
    }
}

/// The transition for one event, whatever its source: exactly one applies
/// per loop iteration. Inbound bytes that do not decode are discarded
/// silently; the idle timer changes nothing.
pub open spec fn step(s: StateView, ev: EventView) -> StepView {
    match ev {
        EventView::Key(k) => step_key(s, k),
        EventView::Inbound(bytes) => match decode_message(bytes) {
            Option::Some(m) => step_body(s, m.body),
            Option::None => no_change(s),
        },
        EventView::Heartbeat => StepView {
            state: s,
            broadcast: if s.display_name is Some {
                Option::Some(
                    BodyView::AboutMe { from: s.self_id, name: s.display_name->Some_0 },
                )
            } else {
                Option::None
            },
            quit: false,
        },
        EventView::Idle => no_change(s),
    }
}

impl SessionState {
    /// The state invariant: a full-length identity and a well-formed
    /// presence directory.
    pub open spec fn wf(&self) -> bool {
        self.self_id.wf() && self.presence.wf()
    }

    /// The state at session start: empty log, empty input, no scroll, and
    /// the own name registered immediately when one was supplied. Also
    /// returns the encoded discovery probe that is broadcast before the
    /// loop begins.
    pub fn start(self_id: Identity, display_name: Option<String>) -> (r: (SessionState, Vec<u8>))
        requires
            self_id.wf(),
        ensures
            r.0.wf(),
            r.0@.self_id == self_id@,
            r.0@.display_name == (match display_name {
                Option::Some(n) => Option::Some(n@),
                Option::None => Option::<Seq<char>>::None,
            }),
            r.0@.log == Seq::<LogLine>::empty(),
            r.0@.input == Seq::<char>::empty(),
            r.0@.scroll == 0u16,
            r.0@.presence == (match display_name {
                Option::Some(n) => Map::<Seq<u8>, Seq<char>>::empty().insert(self_id@, n@),
                Option::None => Map::<Seq<u8>, Seq<char>>::empty(),
            }),
            exists|n: Seq<u8>|
                n.len() == NONCE_LEN && r.1@ == message_bytes(
                    BodyView::WhoIsThere { from: self_id@ },
                    n,
                ),
    {
        let mut presence = Presence::new();
        match &display_name {
            Option::Some(n) => {
                presence.observe_about_me(&self_id, n.clone());
            },
            Option::None => {},
        }
        let probe = Message::new(MessageBody::WhoIsThere { from: self_id.duplicate() });
        let probe_bytes = probe.to_vec();
        let st = SessionState {
            self_id,
            display_name,
            log: Vec::new(),
            input: String::new(),
            scroll: 0,
            presence,
        };
        proof {
            assert(st@.log =~= Seq::<LogLine>::empty());
            assert(message_bytes(probe@.body, probe@.nonce) == message_bytes(
                BodyView::WhoIsThere { from: st@.self_id },
                probe@.nonce,
            ));
        }
        (st, probe_bytes)
    }

    /// Applies exactly one state transition for one event, as `step`
    /// describes it, and hands back what must be broadcast and whether the
    /// loop terminates. The broadcast bytes are the encoding of the body
    /// that `step` names, under some fresh full-length nonce.
    pub fn handle_event(&mut self, ev: SessionEvent) -> (out: StepOutput)
        requires
            old(self).wf(),
        ensures
            final(self).wf(),
            final(self)@ == step(old(self)@, ev@).state,
            out.quit == step(old(self)@, ev@).quit,
            match (out.broadcast, step(old(self)@, ev@).broadcast) {
                (Option::Some(b), Option::Some(bv)) => exists|n: Seq<u8>|
                    n.len() == NONCE_LEN && b@ == message_bytes(bv, n),
                (Option::None, Option::None) => true,
                _ => false,
            },
    {
        match ev {
            SessionEvent::Key(k) => self.handle_key(k),
            SessionEvent::Inbound(bytes) => self.handle_inbound(bytes),
            SessionEvent::Heartbeat => {
                let out = self.announce_self();
                out
            },
            SessionEvent::Idle => StepOutput { broadcast: None, quit: false },
        }
    }

    /// The label under which this participant's own messages appear.
    fn own_label_exec(&self) -> (r: String)
        ensures
            r@ == own_label(self@),
    {
        match &self.display_name {
            Option::Some(n) => n.clone(),
            Option::None => String::from_str("You"),
        }
    }

    /// Broadcasts the own presence announcement, if a name is configured.
    fn announce_self(&mut self) -> (out: StepOutput)
        requires
            old(self).wf(),
        ensures
            final(self).wf(),
            *final(self) == *old(self),
            out.quit == false,
            match (out.broadcast, old(self)@.display_name) {
                (Option::Some(b), Option::Some(name)) => exists|n: Seq<u8>|
                    n.len() == NONCE_LEN && b@ == message_bytes(
                        BodyView::AboutMe { from: old(self)@.self_id, name },
                        n,
                    ),
                (Option::None, Option::None) => true,
                _ => false,
            },
    {
        match &self.display_name {
            Option::Some(n) => {
                let m = Message::new(
                    MessageBody::AboutMe { from: self.self_id.duplicate(), name: n.clone() },
                );
                let b = m.to_vec();
                StepOutput { broadcast: Some(b), quit: false }
            },
            Option::None => StepOutput { broadcast: None, quit: false },
        }
    }

    fn handle_key(&mut self, k: KeyInput) -> (out: StepOutput)
        requires
            old(self).wf(),
        ensures
            final(self).wf(),
            final(self)@ == step_key(old(self)@, k).state,
            out.quit == step_key(old(self)@, k).quit,
            match (out.broadcast, step_key(old(self)@, k).broadcast) {
                (Option::Some(b), Option::Some(bv)) => exists|n: Seq<u8>|
                    n.len() == NONCE_LEN && b@ == message_bytes(bv, n),
                (Option::None, Option::None) => true,
                _ => false,
            },
    {
        match k {
            KeyInput::Quit => StepOutput { broadcast: None, quit: true },
            KeyInput::Submit => {
                let t = trim_str(&self.input);
                if t.as_str().is_empty() {
                    proof {
                        assert(self@ =~= step_key(old(self)@, k).state);
                    }
                    StepOutput { broadcast: None, quit: false }
                } else {
                    let m = Message::new(
                        MessageBody::Message {
                            from: self.self_id.duplicate(),
                            text: t.clone(),
                        },
                    );
                    let b = m.to_vec();
                    let label = self.own_label_exec();
                    self.log.push(LogEntry { label, text: t });
                    self.input = String::new();
                    proof {
                        assert(self@.log =~= step_key(old(self)@, k).state.log);
                        assert(self@ =~= step_key(old(self)@, k).state);
                    }
                    StepOutput { broadcast: Some(b), quit: false }
                }
            },
            KeyInput::Backspace => {
                pop_char(&mut self.input);
                proof {
                    assert(self@ =~= step_key(old(self)@, k).state);
                }
                StepOutput { broadcast: None, quit: false }
            },
            KeyInput::Char(c) => {
                push_char(&mut self.input, c);
                proof {
                    assert(self@ =~= step_key(old(self)@, k).state);
                }
                StepOutput { broadcast: None, quit: false }
            },
            KeyInput::ScrollUp => {
                if self.scroll >= 1 {
                    self.scroll = self.scroll - 1;
                }
                proof {
                    assert(self@ =~= step_key(old(self)@, k).state);
                }
                StepOutput { broadcast: None, quit: false }
            },
            KeyInput::ScrollDown => {
                if self.scroll <= u16::MAX - 1 {
                    self.scroll = self.scroll + 1;
                } else {
                    self.scroll = u16::MAX;
                }
                proof {
                    assert(self@ =~= step_key(old(self)@, k).state);
                }
                StepOutput { broadcast: None, quit: false }
            },
            KeyInput::PageUp => {
                if self.scroll >= PAGE_SCROLL {
                    self.scroll = self.scroll - PAGE_SCROLL;
                } else {
                    self.scroll = 0;
                }
                proof {
                    assert(self@ =~= step_key(old(self)@, k).state);
                }
                StepOutput { broadcast: None, quit: false }
            },
            KeyInput::PageDown => {
                if self.scroll <= u16::MAX - PAGE_SCROLL {
                    self.scroll = self.scroll + PAGE_SCROLL;
                } else {
                    self.scroll = u16::MAX;
                }
                proof {
                    assert(self@ =~= step_key(old(self)@, k).state);
                }
                StepOutput { broadcast: None, quit: false }
            },
            KeyInput::Other => StepOutput { broadcast: None, quit: false },
        }
    }

    fn handle_inbound(&mut self, bytes: Vec<u8>) -> (out: StepOutput)
        requires
            old(self).wf(),
        ensures
            final(self).wf(),
            final(self)@ == step(old(self)@, EventView::Inbound(bytes@)).state,
            out.quit == step(old(self)@, EventView::Inbound(bytes@)).quit,
            match (out.broadcast, step(old(self)@, EventView::Inbound(bytes@)).broadcast) {
                (Option::Some(b), Option::Some(bv)) => exists|n: Seq<u8>|
                    n.len() == NONCE_LEN && b@ == message_bytes(bv, n),
                (Option::None, Option::None) => true,
                _ => false,
            },
    {
        match Message::from_bytes(bytes.as_slice()) {
            Result::Err(_) => StepOutput { broadcast: None, quit: false },
            Result::Ok(m) => {
                match m.body {
                    MessageBody::WhoIsThere { from } => {
                        if !from.same_as(&self.self_id) {
                            let out = self.announce_self();
                            out
                        } else {
                            StepOutput { broadcast: None, quit: false }
                        }
                    },
                    MessageBody::AboutMe { from, name } => {
                        let mut notice = name.clone();
                        notice.append(" joined");
                        let joined = self.presence.observe_about_me(&from, name);
                        if joined {
                            self.log.push(
                                LogEntry { label: String::from_str("System"), text: notice },
                            );
                        }
                        proof {
                            assert(self@.log =~= step(
                                old(self)@,
                                EventView::Inbound(bytes@),
                            ).state.log);
                            assert(self@ =~= step(old(self)@, EventView::Inbound(bytes@)).state);
                        }
                        StepOutput { broadcast: None, quit: false }
                    },
                    MessageBody::Message { from, text } => {
                        let label = self.presence.resolve_label(&from);
                        self.log.push(LogEntry { label, text });
                        proof {
                            assert(self@.log =~= step(
                                old(self)@,
                                EventView::Inbound(bytes@),
                            ).state.log);
                            assert(self@ =~= step(old(self)@, EventView::Inbound(bytes@)).state);
                        }
                        StepOutput { broadcast: None, quit: false }
                    },
                }
            },
        }
    }
}

/// Observing the same announcement twice is the same as observing it
/// once: the second observation adds no "joined" line and changes
/// nothing.
pub proof fn lemma_presence_idempotent(s: StateView, from: Seq<u8>, name: Seq<char>)
    ensures
        apply_about(apply_about(s, from, name), from, name) == apply_about(s, from, name),
{
    let s1 = apply_about(s, from, name);
    assert(s1.presence.contains_key(from));
    assert(s1.presence.insert(from, name) =~= s1.presence);
    assert(apply_about(s1, from, name) =~= s1);
}

/// The discovery handshake: when a named participant B receives A's
/// probe, B announces its name exactly once and changes no state; when A
/// then observes that announcement, A resolves B's identity to B's name.
pub proof fn lemma_discovery_handshake(a: StateView, b: StateView)
    requires
        b.display_name is Some,
        a.self_id != b.self_id,
    ensures
        ({
            let reply = step_body(b, BodyView::WhoIsThere { from: a.self_id });
            &&& reply.state == b
            &&& !reply.quit
            &&& reply.broadcast == Option::Some(
                BodyView::AboutMe { from: b.self_id, name: b.display_name->Some_0 },
            )
        }),
        ({
            let learned = step_body(
                a,
                BodyView::AboutMe { from: b.self_id, name: b.display_name->Some_0 },
            );
            &&& learned.broadcast is None
            &&& !learned.quit
            &&& resolve_label_spec(learned.state.presence, b.self_id) == b.display_name->Some_0
        }),
{
}

/// Heartbeat liveness: when the heartbeat timer fires and a name is
/// configured, exactly one fresh announcement of that name goes out, and
/// nothing else happens.
pub proof fn lemma_heartbeat_announces(s: StateView)
    requires
        s.display_name is Some,
    ensures
        step(s, EventView::Heartbeat).state == s,
        !step(s, EventView::Heartbeat).quit,
        step(s, EventView::Heartbeat).broadcast == Option::Some(
            BodyView::AboutMe { from: s.self_id, name: s.display_name->Some_0 },
        ),
{
}

/// Corrupt-message resilience: bytes that do not decode leave the state
/// exactly as it was, send nothing, and do not end the loop.
pub proof fn lemma_corrupt_inbound_ignored(s: StateView, bytes: Seq<u8>)
    requires
        decode_message(bytes) is None,
    ensures
        step(s, EventView::Inbound(bytes)) == no_change(s),
{
    assert(step(s, EventView::Inbound(bytes)) =~= no_change(s));
}

} // verus!
